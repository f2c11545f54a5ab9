//! BMP (bitmap) files: a file header, a BITMAPINFOHEADER, a color table for
//! indexed images, and the pixel rows from the bottom up, each zero-filled
//! to a multiple of 4 bytes.
use vstd::prelude::*;
use vstd::arithmetic::power2::pow2;

use crate::images::common::image::{
    first_index, indexed_palette, palette_of, BinaryInfo, ColorPixel, RawImage,
};
use crate::images::common::utils::{get_padding_num, padding_num, padding_to_base};
use crate::images::common::{depth_bits, ColorDepth};

verus! {

pub const BI_RGB: u32 = 0;

pub const BI_BITFIELDS: u32 = 3;

/// Little-endian encoding of `v` in `n` bytes.
pub open spec fn le_bytes(v: nat, n: nat) -> Seq<u8>
    decreases n,
{
    if n == 0 {
        seq![]
    } else {
        seq![(v % 256) as u8] + le_bytes(v / 256, (n - 1) as nat)
    }
}

fn push_u16_le(buf: &mut Vec<u8>, v: u16)
    ensures
        final(buf)@ == old(buf)@ + le_bytes(v as nat, 2),
{
    buf.push((v % 256) as u8);
    buf.push((v / 256) as u8);
    assert(final(buf)@ =~= old(buf)@ + le_bytes(v as nat, 2)) by {
        reveal_with_fuel(le_bytes, 3);
    }
}

fn push_u32_le(buf: &mut Vec<u8>, v: u32)
    ensures
        final(buf)@ == old(buf)@ + le_bytes(v as nat, 4),
{
    buf.push((v % 256) as u8);
    buf.push(((v / 256) % 256) as u8);
    buf.push(((v / 65536) % 256) as u8);
    buf.push((v / 16777216) as u8);
    assert(final(buf)@ =~= old(buf)@ + le_bytes(v as nat, 4)) by {
        reveal_with_fuel(le_bytes, 5);
    }
}

/// Whether an image of this depth is stored through a color table.
pub open spec fn is_indexed_depth(d: ColorDepth) -> bool {
    d == ColorDepth::Depth1 || d == ColorDepth::Depth4 || d == ColorDepth::Depth8
}

fn is_indexed_image(image: &RawImage) -> (r: bool)
    ensures
        r == is_indexed_depth(image.depth),
{
    match image.depth {
        ColorDepth::Depth1 | ColorDepth::Depth4 | ColorDepth::Depth8 => true,
        _ => false,
    }
}

// ---------------------------------------------------------------------------
// Rows
// ---------------------------------------------------------------------------

/// The rows of `data` (`w` items each, the last maybe shorter), each turned
/// into bytes by `line`, from the last row to the first.
pub open spec fn rows_bottom_up<T>(data: Seq<T>, w: nat, line: spec_fn(Seq<T>) -> Seq<u8>) -> Seq<
    u8,
>
    decreases data.len(),
{
    if data.len() == 0 || w == 0 {
        seq![]
    } else {
        let c = if w < data.len() {
            w
        } else {
            data.len()
        };
        rows_bottom_up(data.skip(c as int), w, line) + line(data.take(c as int))
    }
}

/// `bytes` and zeros up to a multiple of 4.
pub open spec fn pad4(bytes: Seq<u8>) -> Seq<u8> {
    bytes + Seq::new(padding_num(bytes.len() as int, 4) as nat, |i: int| 0u8)
}

/// `m` to the power `e`.
pub open spec fn power(m: nat, e: nat) -> nat
    decreases e,
{
    if e == 0 {
        1
    } else {
        m * power(m, (e - 1) as nat)
    }
}

/// The number of values that a palette index takes at an indexed depth:
/// 2, 16 or 256.
pub open spec fn index_base(d: ColorDepth) -> nat {
    match d {
        ColorDepth::Depth1 => 2,
        ColorDepth::Depth4 => 16,
        _ => 256,
    }
}

/// Palette indices stored per byte at an indexed depth: 8 (one bit each),
/// 2 (four bits each) or 1 (a byte each).
pub open spec fn indices_per_byte(d: ColorDepth) -> nat {
    match d {
        ColorDepth::Depth1 => 8,
        ColorDepth::Depth4 => 2,
        _ => 1,
    }
}

/// Indices read as the digits of a number in base `m`, the first index the
/// most significant.
pub open spec fn pack_value(c: Seq<usize>, m: nat) -> nat
    decreases c.len(),
{
    if c.len() == 0 {
        0
    } else {
        (pack_value(c.drop_last(), m) * m + c.last()) as nat
    }
}

/// The byte of a group of up to `k` indices of `m` values each: the group,
/// filled with zero indices up to `k`, read in base `m`; so the first index
/// takes the highest bits.
pub open spec fn pack_byte(c: Seq<usize>, m: nat, k: nat) -> u8 {
    pack_value(c + Seq::new((k - c.len()) as nat, |i: int| 0usize), m) as u8
}

/// The bytes of a row of indices, `k` to a byte.
pub open spec fn packed_row(row: Seq<usize>, m: nat, k: nat) -> Seq<u8>
    decreases row.len(),
{
    if row.len() == 0 || k == 0 {
        seq![]
    } else {
        let c = if row.len() < k {
            row.len()
        } else {
            k
        };
        seq![pack_byte(row.take(c as int), m, k)] + packed_row(row.skip(c as int), m, k)
    }
}

proof fn lemma_power_positive(m: nat, e: nat)
    requires
        m >= 1,
    ensures
        power(m, e) >= 1,
    decreases e,
{
    if e > 0 {
        lemma_power_positive(m, (e - 1) as nat);
        assert(m * power(m, (e - 1) as nat) >= 1) by (nonlinear_arith)
            requires
                m >= 1,
                power(m, (e - 1) as nat) >= 1,
        ;
    }
}

proof fn lemma_pack_value_bound(s: Seq<usize>, m: nat)
    requires
        forall|i: int| 0 <= i < s.len() ==> #[trigger] s[i] < m,
    ensures
        pack_value(s, m) < power(m, s.len()),
    decreases s.len(),
{
    if s.len() > 0 {
        let d = s.drop_last();
        assert forall|i: int| 0 <= i < d.len() implies #[trigger] d[i] < m by {
            assert(d[i] == s[i]);
        }
        lemma_pack_value_bound(d, m);
        let a = pack_value(d, m);
        let p = power(m, d.len());
        assert(a * m + s.last() < m * p) by (nonlinear_arith)
            requires
                a < p,
                s.last() < m,
        ;
    }
}

proof fn lemma_pack_value_split(s: Seq<usize>, m: nat, t: int)
    requires
        0 <= t <= s.len(),
    ensures
        pack_value(s, m) == pack_value(s.take(t), m) * power(m, (s.len() - t) as nat) + pack_value(
            s.skip(t),
            m,
        ),
    decreases s.len(),
{
    if t == s.len() {
        assert(s.take(t) =~= s);
        assert(s.skip(t) =~= Seq::<usize>::empty());
        assert(pack_value(s.skip(t), m) == 0);
        assert(power(m, 0) == 1);
        assert(pack_value(s, m) * 1 == pack_value(s, m));
    } else {
        let d = s.drop_last();
        lemma_pack_value_split(d, m, t);
        assert(d.take(t) =~= s.take(t));
        assert(s.skip(t).drop_last() =~= d.skip(t));
        assert(s.skip(t).last() == s.last());
        let a = pack_value(s.take(t), m);
        let p = power(m, (d.len() - t) as nat);
        let b = pack_value(d.skip(t), m);
        assert(power(m, (s.len() - t) as nat) == m * p);
        assert((a * p + b) * m + s.last() == a * (m * p) + (b * m + s.last())) by (nonlinear_arith);
        assert(pack_value(s, m) == pack_value(d, m) * m + s.last());
        assert(pack_value(d, m) == a * p + b);
        assert(pack_value(s.skip(t), m) == b * m + s.last());
    }
}

/// A packed byte gives back its indices: at an indexed depth, the `t`-th
/// index of a group of at most `indices_per_byte` indices is the `t`-th digit
/// in base `index_base`, counting from the most significant, of the byte
/// (at 1 bit: bit `7 - t`; at 4 bits: the high nibble, then the low one; at
/// 8 bits: the byte); digits past the group are zero.
pub proof fn lemma_packed_byte_reads_back(c: Seq<usize>, d: ColorDepth, t: int)
    requires
        is_indexed_depth(d),
        c.len() <= indices_per_byte(d),
        forall|i: int| 0 <= i < c.len() ==> #[trigger] c[i] < index_base(d),
        0 <= t < indices_per_byte(d),
    ensures
        (pack_byte(c, index_base(d), indices_per_byte(d)) as nat / power(
            index_base(d),
            (indices_per_byte(d) - 1 - t) as nat,
        )) % index_base(d) == (if t < c.len() {
            c[t] as nat
        } else {
            0nat
        }),
{
    let m = index_base(d);
    let k = indices_per_byte(d);
    reveal_with_fuel(power, 9);
    assert(power(m, k) == 256);
    let f = c + Seq::new((k - c.len()) as nat, |i: int| 0usize);
    assert(f.len() == k);
    assert forall|i: int| 0 <= i < f.len() implies #[trigger] f[i] < m by {
        if i < c.len() {
            assert(f[i] == c[i]);
        }
    }
    lemma_pack_value_bound(f, m);
    let v = pack_value(f, m);
    assert(pack_byte(c, m, k) as nat == v);
    lemma_pack_value_split(f, m, t + 1);
    let a = pack_value(f.take(t + 1), m);
    let p = power(m, (k - (t + 1)) as nat);
    let b = pack_value(f.skip(t + 1), m);
    assert forall|i: int| 0 <= i < f.skip(t + 1).len() implies #[trigger] f.skip(t + 1)[i] < m by {
        assert(f.skip(t + 1)[i] == f[t + 1 + i]);
    }
    lemma_pack_value_bound(f.skip(t + 1), m);
    lemma_power_positive(m, (k - (t + 1)) as nat);
    vstd::arithmetic::div_mod::lemma_fundamental_div_mod_converse(v as int, p as int, a as int, b as int);
    let g = f.take(t + 1);
    assert(g.drop_last() =~= f.take(t));
    assert(g.last() == f[t]);
    assert(a == pack_value(f.take(t), m) * m + f[t]);
    vstd::arithmetic::div_mod::lemma_fundamental_div_mod_converse(
        a as int,
        m as int,
        pack_value(f.take(t), m) as int,
        f[t] as int,
    );
    if t < c.len() {
        assert(f[t] == c[t]);
    }
}

/// The line of a row of indices at an indexed depth.
pub open spec fn indexed_line(row: Seq<usize>, d: ColorDepth) -> Seq<u8> {
    pad4(packed_row(row, index_base(d), indices_per_byte(d)))
}

/// The RGB555 word of a color: the top five bits of red, green and blue,
/// red highest, the top bit zero.
pub open spec fn rgb555(p: ColorPixel) -> nat {
    (p.r / 8) as nat * 1024 + (p.g / 8) as nat * 32 + (p.b / 8) as nat
}

/// The RGB555 word of a color fits in 15 bits and holds the top five bits
/// of red in bits 10 to 14, of green in bits 5 to 9, of blue in bits 0 to 4.
pub proof fn lemma_rgb555_fields(p: ColorPixel)
    ensures
        rgb555(p) < 32768,
        rgb555(p) / 1024 == p.r / 8,
        (rgb555(p) / 32) % 32 == p.g / 8,
        rgb555(p) % 32 == p.b / 8,
{
}

/// The bytes of one pixel at a direct depth: the RGB555 word, little-endian,
/// at 16 bits; blue, green, red at 24 bits; and alpha after them at 32 bits.
pub open spec fn pixel_bytes(p: ColorPixel, d: ColorDepth) -> Seq<u8> {
    match d {
        ColorDepth::Depth16 => le_bytes(rgb555(p), 2),
        ColorDepth::Depth32 => seq![p.b, p.g, p.r, p.a],
        _ => seq![p.b, p.g, p.r],
    }
}

/// The bytes of a row of pixels.
pub open spec fn pixel_row(row: Seq<ColorPixel>, d: ColorDepth) -> Seq<u8>
    decreases row.len(),
{
    if row.len() == 0 {
        seq![]
    } else {
        pixel_row(row.drop_last(), d) + pixel_bytes(row.last(), d)
    }
}

/// The line of a row of pixels.
pub open spec fn pixel_line(row: Seq<ColorPixel>, d: ColorDepth) -> Seq<u8> {
    pad4(pixel_row(row, d))
}

/// The color table entry of a color.
pub open spec fn quad_bytes(p: ColorPixel) -> Seq<u8> {
    seq![p.b, p.g, p.r, 0u8]
}

/// The color table.
pub open spec fn palette_bytes(p: Seq<ColorPixel>) -> Seq<u8>
    decreases p.len(),
{
    if p.len() == 0 {
        seq![]
    } else {
        palette_bytes(p.drop_last()) + quad_bytes(p.last())
    }
}

/// The palette index of every pixel.
pub open spec fn pixel_indices(data: Seq<ColorPixel>) -> Seq<usize> {
    Seq::new(data.len(), |k: int| first_index(palette_of(data), data[k]) as usize)
}

/// The color table of an image: at an indexed depth, its palette filled up
/// to 2, 16 or 256 colors; none at a direct depth.
pub open spec fn color_table(img: RawImage) -> Seq<u8> {
    if is_indexed_depth(img.depth) {
        palette_bytes(indexed_palette(img.data@, depth_bits(img.depth) as nat))
    } else {
        seq![]
    }
}

/// The pixel rows of an image, the bottom row first, each zero-filled to a
/// multiple of 4 bytes: packed palette indices at an indexed depth, pixel
/// bytes at a direct one.
pub open spec fn pixel_data(img: RawImage) -> Seq<u8> {
    let w = img.width as nat;
    let d = img.depth;
    if is_indexed_depth(d) {
        rows_bottom_up(pixel_indices(img.data@), w, |row: Seq<usize>| indexed_line(row, d))
    } else {
        rows_bottom_up(img.data@, w, |row: Seq<ColorPixel>| pixel_line(row, d))
    }
}

/// The bytes of an image: its color table, then its pixel rows.
pub open spec fn image_bytes(img: RawImage) -> Seq<u8> {
    color_table(img) + pixel_data(img)
}

/// `x` rounded up to a multiple of 4.
pub open spec fn round4(x: nat) -> nat {
    (x + padding_num(x as int, 4)) as nat
}

/// Number of colors in the color table of an image of depth `d`.
pub open spec fn colors_used(d: ColorDepth) -> u32 {
    match d {
        ColorDepth::Depth1 => 2,
        ColorDepth::Depth4 => 16,
        ColorDepth::Depth8 => 256,
        _ => 0,
    }
}

/// Bytes of the color table at depth `d`: 4 bytes per color.
pub open spec fn color_table_size(d: ColorDepth) -> nat {
    (4 * colors_used(d)) as nat
}

/// Bytes of a row of `w` pixels at depth `d`, before the zero fill.
pub open spec fn row_size(d: ColorDepth, w: nat) -> nat {
    match d {
        ColorDepth::Depth1 => (w + 7) / 8,
        ColorDepth::Depth4 => (w + 1) / 2,
        ColorDepth::Depth8 => w,
        ColorDepth::Depth16 => w * 2,
        ColorDepth::Depth24 => w * 3,
        ColorDepth::Depth32 => w * 4,
    }
}

/// The byte size of an image: its color table and its zero-filled rows.
pub open spec fn image_byte_size(img: RawImage) -> nat {
    color_table_size(img.depth) + round4(row_size(img.depth, img.width as nat)) * (img.height as nat)
}

/// The byte size can be computed in 32 bits.
pub open spec fn image_size_fits(img: RawImage) -> bool {
    let r = row_size(img.depth, img.width as nat);
    &&& r <= u32::MAX
    &&& round4(r) <= u32::MAX
    &&& round4(r) * img.height + color_table_size(img.depth) <= u32::MAX
}

/// An image can be serialized: rows are at least one pixel wide, and an
/// indexed image has no more colors than its depth allows.
pub open spec fn image_bytes_ok(img: RawImage) -> bool {
    &&& img.width > 0
    &&& is_indexed_depth(img.depth) ==> palette_of(img.data@).len() <= pow2(
        depth_bits(img.depth) as nat,
    )
}

// ---------------------------------------------------------------------------
// Serializing the rows
// ---------------------------------------------------------------------------

/// Where the rows of `len` items, `w` per row, start.
fn row_starts(len: usize, w: usize) -> (starts: Vec<usize>)
    requires
        w > 0,
    ensures
        starts@.len() > 0 ==> starts@[0] == 0,
        len > 0 <==> starts@.len() > 0,
        forall|k: int| 0 <= k < starts@.len() ==> #[trigger] starts@[k] < len,
        forall|k: int|
            1 <= k < starts@.len() ==> #[trigger] starts@[k] == starts@[k - 1] + w,
        starts@.len() > 0 ==> starts@.last() + w >= len,
{
    let mut starts: Vec<usize> = Vec::new();
    let mut s: usize = 0;
    while s < len
        invariant
            w > 0,
            s <= len,
            starts@.len() > 0 ==> starts@[0] == 0,
            starts@.len() == 0 ==> s == 0,
            starts@.len() > 0 ==> s == (if starts@.last() + w < len {
                starts@.last() + w
            } else {
                len as int
            }),
            forall|k: int| 0 <= k < starts@.len() ==> #[trigger] starts@[k] < len,
            forall|k: int|
                1 <= k < starts@.len() ==> #[trigger] starts@[k] == starts@[k - 1] + w,
        decreases len - s,
    {
        starts.push(s);
        if len - s > w {
            s = s + w;
        } else {
            s = len;
        }
    }
    starts
}

proof fn lemma_rows_step<T>(data: Seq<T>, w: nat, line: spec_fn(Seq<T>) -> Seq<u8>, s: int, e: int)
    requires
        w > 0,
        0 <= s < e <= data.len(),
        e == (if s + w < data.len() {
            s + w
        } else {
            data.len() as int
        }),
    ensures
        rows_bottom_up(data.skip(s), w, line) == rows_bottom_up(data.skip(e), w, line) + line(
            data.subrange(s, e),
        ),
{
    let d = data.skip(s);
    assert(d.skip(e - s) =~= data.skip(e));
    assert(d.take(e - s) =~= data.subrange(s, e));
}

/// Appends zeros to `buf` up to a multiple of 4 bytes.
fn pad_to_4(buf: &mut Vec<u8>)
    ensures
        final(buf)@ == pad4(old(buf)@),
{
    let len = buf.len();
    assert((len as u32) % 4 == len % 4) by (bit_vector);
    let padding = get_padding_num(len as u32, 4);
    let ghost body = buf@;
    let mut k: u32 = 0;
    while k < padding
        invariant
            k <= padding,
            padding == padding_num(body.len() as int, 4),
            buf@ == body + Seq::new(k as nat, |j: int| 0u8),
        decreases padding - k,
    {
        buf.push(0u8);
        k = k + 1;
        assert(buf@ =~= body + Seq::new(k as nat, |j: int| 0u8));
    }
}

/// The line of the pixels `data[start..end]` at a direct depth.
fn pixel_line_of(data: &Vec<ColorPixel>, start: usize, end: usize, depth: ColorDepth) -> (r: Vec<
    u8,
>)
    requires
        start <= end <= data@.len(),
    ensures
        r@ == pixel_line(data@.subrange(start as int, end as int), depth),
{
    let ghost row = data@.subrange(start as int, end as int);
    let mut line_buf: Vec<u8> = Vec::new();
    let mut i = start;
    while i < end
        invariant
            start <= i <= end <= data@.len(),
            row == data@.subrange(start as int, end as int),
            line_buf@ == pixel_row(row.take(i - start), depth),
        decreases end - i,
    {
        let pixel = data[i];
        if depth == ColorDepth::Depth16 {
            // RGB555: five bits per channel, red highest
            let word: u16 = (pixel.r / 8) as u16 * 1024 + (pixel.g / 8) as u16 * 32 + (pixel.b
                / 8) as u16;
            push_u16_le(&mut line_buf, word);
        } else {
            // BGR order
            line_buf.push(pixel.b);
            line_buf.push(pixel.g);
            line_buf.push(pixel.r);
            if depth == ColorDepth::Depth32 {
                line_buf.push(pixel.a);
            }
        }
        assert(row.take(i + 1 - start).drop_last() =~= row.take(i - start));
        i = i + 1;
        assert(line_buf@ =~= pixel_row(row.take(i - start), depth));
    }
    assert(row.take(end - start) =~= row);
    pad_to_4(&mut line_buf);
    line_buf
}

/// The value base and the indices per byte at an indexed depth.
fn index_packing(depth: ColorDepth) -> (r: (u32, usize))
    requires
        is_indexed_depth(depth),
    ensures
        r.0 == index_base(depth),
        r.1 == indices_per_byte(depth),
        power(r.0 as nat, r.1 as nat) == 256,
{
    proof {
        reveal_with_fuel(power, 9);
    }
    match depth {
        ColorDepth::Depth1 => (2, 8),
        ColorDepth::Depth4 => (16, 2),
        _ => (256, 1),
    }
}

proof fn lemma_power_monotonic(m: nat, a: nat, b: nat)
    requires
        m >= 1,
        a <= b,
    ensures
        power(m, a) <= power(m, b),
    decreases b,
{
    if a < b {
        lemma_power_monotonic(m, a, (b - 1) as nat);
        assert(power(m, (b - 1) as nat) <= m * power(m, (b - 1) as nat)) by (nonlinear_arith)
            requires
                m >= 1,
        ;
    }
}

/// The line of the indices `indices[start..end]` at an indexed depth.
fn indexed_line_of(indices: &Vec<usize>, start: usize, end: usize, depth: ColorDepth) -> (r: Vec<
    u8,
>)
    requires
        start <= end <= indices@.len(),
        is_indexed_depth(depth),
        forall|t: int| start <= t < end ==> #[trigger] indices@[t] < index_base(depth),
    ensures
        r@ == indexed_line(indices@.subrange(start as int, end as int), depth),
{
    let (m, k) = index_packing(depth);
    let ghost row = indices@.subrange(start as int, end as int);
    let mut line_buf: Vec<u8> = Vec::new();
    let mut i = start;
    assert(row.skip(0) =~= row);
    while i < end
        invariant
            start <= i <= end <= indices@.len(),
            row == indices@.subrange(start as int, end as int),
            m == index_base(depth),
            k == indices_per_byte(depth),
            power(m as nat, k as nat) == 256,
            forall|t: int| start <= t < end ==> #[trigger] indices@[t] < index_base(depth),
            line_buf@ + packed_row(row.skip(i - start), m as nat, k as nat) == packed_row(
                row,
                m as nat,
                k as nat,
            ),
        decreases end - i,
    {
        let chunk_end = if end - i < k {
            end
        } else {
            i + k
        };
        let n = chunk_end - i;
        let ghost chunk = row.skip(i - start).take(n as int);
        let ghost filled = chunk + Seq::new((k - n) as nat, |t: int| 0usize);
        assert(filled.len() == k);
        let mut acc: u32 = 0;
        let mut t: usize = 0;
        assert(filled.take(0) =~= Seq::<usize>::empty());
        while t < k
            invariant
                t <= k,
                start <= i <= chunk_end <= end <= indices@.len(),
                n == chunk_end - i,
                n <= k,
                m == index_base(depth),
                power(m as nat, k as nat) == 256,
                forall|u: int| start <= u < end ==> #[trigger] indices@[u] < index_base(depth),
                filled.len() == k,
                forall|u: int| 0 <= u < n ==> #[trigger] filled[u] == indices@[i + u],
                forall|u: int| n <= u < k ==> #[trigger] filled[u] == 0,
                acc == pack_value(filled.take(t as int), m as nat),
                acc < power(m as nat, t as nat),
            decreases k - t,
        {
            let idx: u32 = if t < n {
                assert(filled[t as int] == indices@[i + t]);
                assert(indices@[i + t] < index_base(depth));
                indices[i + t] as u32
            } else {
                0
            };
            assert(idx == filled[t as int]);
            assert(filled.take(t + 1).drop_last() =~= filled.take(t as int));
            proof {
                lemma_power_monotonic(m as nat, (t + 1) as nat, k as nat);
                assert(power(m as nat, (t + 1) as nat) == m * power(m as nat, t as nat));
                assert(acc * m + idx < power(m as nat, (t + 1) as nat)) by (nonlinear_arith)
                    requires
                        acc < power(m as nat, t as nat),
                        idx < m,
                        power(m as nat, (t + 1) as nat) == m * power(m as nat, t as nat),
                ;
            }
            acc = acc * m + idx;
            t = t + 1;
        }
        assert(filled.take(k as int) =~= filled);
        assert(chunk + Seq::new((k - chunk.len()) as nat, |u: int| 0usize) =~= filled);
        let ghost rest = row.skip(i - start);
        assert(rest.skip(n as int) =~= row.skip(chunk_end - start));
        line_buf.push(acc as u8);
        assert(line_buf@ + packed_row(row.skip(chunk_end - start), m as nat, k as nat) =~= packed_row(
            row,
            m as nat,
            k as nat,
        )) by {
            assert(packed_row(rest, m as nat, k as nat) == seq![pack_byte(chunk, m as nat, k as nat)]
                + packed_row(rest.skip(n as int), m as nat, k as nat));
        }
        i = chunk_end;
    }
    assert(row.skip(end - start) =~= Seq::<usize>::empty());
    assert(line_buf@ =~= packed_row(row, m as nat, k as nat));
    pad_to_4(&mut line_buf);
    line_buf
}

/// The pixel rows of `data`, `w` per row, from the last row to the first.
fn pixel_rows(data: &Vec<ColorPixel>, w: usize, depth: ColorDepth) -> (r: Vec<u8>)
    requires
        w > 0,
    ensures
        r@ == rows_bottom_up(data@, w as nat, |row: Seq<ColorPixel>| pixel_line(row, depth)),
{
    let len = data.len();
    let starts = row_starts(len, w);
    let mut buf: Vec<u8> = Vec::new();
    let mut k = starts.len();
    assert(data@.skip(len as int) =~= Seq::<ColorPixel>::empty());
    while k > 0
        invariant
            k <= starts@.len(),
            len == data@.len(),
            w > 0,
            starts@.len() > 0 ==> starts@[0] == 0,
            len > 0 <==> starts@.len() > 0,
            forall|t: int| 0 <= t < starts@.len() ==> #[trigger] starts@[t] < len,
            forall|t: int|
                1 <= t < starts@.len() ==> #[trigger] starts@[t] == starts@[t - 1] + w,
            starts@.len() > 0 ==> starts@.last() + w >= len,
            buf@ == rows_bottom_up(
                data@.skip(if k == starts@.len() {
                    len as int
                } else {
                    starts@[k as int] as int
                }),
                w as nat,
                |row: Seq<ColorPixel>| pixel_line(row, depth),
            ),
        decreases k,
    {
        let start = starts[k - 1];
        let end = if k == starts.len() {
            len
        } else {
            starts[k]
        };
        let mut row_bytes = pixel_line_of(data, start, end, depth);
        proof {
            lemma_rows_step(data@, w as nat, |row: Seq<ColorPixel>| pixel_line(row, depth), start as int, end as int);
            assert(row_bytes@ == pixel_line(data@.subrange(start as int, end as int), depth));
        }
        let ghost old_buf = buf@;
        buf.append(&mut row_bytes);
        k = k - 1;
        assert(buf@ == old_buf + pixel_line(data@.subrange(start as int, end as int), depth));
        assert(buf@ == rows_bottom_up(
            data@.skip(start as int),
            w as nat,
            |row: Seq<ColorPixel>| pixel_line(row, depth),
        ));
    }
    assert(data@.skip(0) =~= data@);
    buf
}

/// The index rows of `indices`, `w` per row, from the last row to the first.
fn indexed_rows(indices: &Vec<usize>, w: usize, depth: ColorDepth) -> (r: Vec<u8>)
    requires
        w > 0,
        is_indexed_depth(depth),
        forall|t: int| 0 <= t < indices@.len() ==> #[trigger] indices@[t] < index_base(depth),
    ensures
        r@ == rows_bottom_up(indices@, w as nat, |row: Seq<usize>| indexed_line(row, depth)),
{
    let len = indices.len();
    let starts = row_starts(len, w);
    let mut buf: Vec<u8> = Vec::new();
    let mut k = starts.len();
    assert(indices@.skip(len as int) =~= Seq::<usize>::empty());
    while k > 0
        invariant
            k <= starts@.len(),
            len == indices@.len(),
            is_indexed_depth(depth),
            forall|t: int| 0 <= t < indices@.len() ==> #[trigger] indices@[t] < index_base(depth),
            w > 0,
            starts@.len() > 0 ==> starts@[0] == 0,
            len > 0 <==> starts@.len() > 0,
            forall|t: int| 0 <= t < starts@.len() ==> #[trigger] starts@[t] < len,
            forall|t: int|
                1 <= t < starts@.len() ==> #[trigger] starts@[t] == starts@[t - 1] + w,
            starts@.len() > 0 ==> starts@.last() + w >= len,
            buf@ == rows_bottom_up(
                indices@.skip(if k == starts@.len() {
                    len as int
                } else {
                    starts@[k as int] as int
                }),
                w as nat,
                |row: Seq<usize>| indexed_line(row, depth),
            ),
        decreases k,
    {
        let start = starts[k - 1];
        let end = if k == starts.len() {
            len
        } else {
            starts[k]
        };
        let mut row_bytes = indexed_line_of(indices, start, end, depth);
        proof {
            lemma_rows_step(
                indices@,
                w as nat,
                |row: Seq<usize>| indexed_line(row, depth),
                start as int,
                end as int,
            );
            assert(row_bytes@ == indexed_line(indices@.subrange(start as int, end as int), depth));
        }
        let ghost old_buf = buf@;
        buf.append(&mut row_bytes);
        k = k - 1;
        assert(buf@ == old_buf + indexed_line(indices@.subrange(start as int, end as int), depth));
        assert(buf@ == rows_bottom_up(
            indices@.skip(start as int),
            w as nat,
            |row: Seq<usize>| indexed_line(row, depth),
        ));
    }
    assert(indices@.skip(0) =~= indices@);
    buf
}


/// Bytes of the color table at depth `depth`.
fn color_table_len(depth: ColorDepth) -> (r: u32)
    ensures
        r == color_table_size(depth),
{
    let colors: u32 = match depth {
        ColorDepth::Depth1 => 2,
        ColorDepth::Depth4 => 16,
        ColorDepth::Depth8 => 256,
        _ => 0,
    };
    RgbQuad::get_byte_size() * colors
}

impl BinaryInfo for RawImage {
    open spec fn bytes_ok(&self) -> bool {
        image_bytes_ok(*self)
    }

    open spec fn binary_bytes(&self) -> Seq<u8> {
        image_bytes(*self)
    }

    open spec fn size_ok(&self) -> bool {
        image_size_fits(*self)
    }

    open spec fn byte_size(&self) -> nat {
        image_byte_size(*self)
    }

    fn to_bytes(&self) -> (r: Vec<u8>) {
        if is_indexed_image(self) {
            proof {
                vstd::arithmetic::power2::lemma2_to64();
            }
            let (palette, indexed_colors) = self.get_indexed_info();
            let mut palette_buf: Vec<u8> = Vec::new();
            let mut i: usize = 0;
            while i < palette.len()
                invariant
                    i <= palette@.len(),
                    palette_buf@ == palette_bytes(palette@.take(i as int)),
                decreases palette@.len() - i,
            {
                proof {
                    lemma_quad_from(palette@[i as int]);
                }
                let mut quad = RgbQuad::from(palette[i]).to_bytes();
                palette_buf.append(&mut quad);
                assert(palette@.take(i + 1).drop_last() =~= palette@.take(i as int));
                i = i + 1;
            }
            assert(palette@.take(i as int) =~= palette@);
            assert(indexed_colors@ =~= pixel_indices(self.data@));
            assert(palette@.len() == index_base(self.depth));
            let mut buf = indexed_rows(&indexed_colors, self.width as usize, self.depth);
            palette_buf.append(&mut buf);
            palette_buf
        } else {
            pixel_rows(&self.data, self.width as usize, self.depth)
        }
    }

    fn get_byte_size(&self) -> (r: u32) {
        let width = self.width;
        let height = self.height;
        match self.depth {
            ColorDepth::Depth1 => {
                // eight pixels to a byte, the last byte maybe partly filled
                let row = width / 8 + if width % 8 == 0 {
                    0
                } else {
                    1
                };
                padding_to_base(row, 4) * height + RgbQuad::get_byte_size() * 2
            },
            ColorDepth::Depth4 => {
                // two pixels to a byte
                let row = width / 2 + width % 2;
                padding_to_base(row, 4) * height + RgbQuad::get_byte_size() * 16
            },
            ColorDepth::Depth8 => {
                padding_to_base(width, 4) * height + RgbQuad::get_byte_size() * 256
            },
            ColorDepth::Depth16 => padding_to_base(width * 2, 4) * height,
            ColorDepth::Depth24 => padding_to_base(width * 3, 4) * height,
            ColorDepth::Depth32 => {
                assert(round4((width * 4) as nat) == width * 4);
                width * 4 * height
            },
        }
    }
}

// ---------------------------------------------------------------------------
// Sizes
// ---------------------------------------------------------------------------

proof fn lemma_rows_len<T>(data: Seq<T>, w: nat, h: nat, line: spec_fn(Seq<T>) -> Seq<u8>, l: nat)
    requires
        w > 0,
        data.len() == w * h,
        forall|row: Seq<T>| row.len() == w ==> #[trigger] line(row).len() == l,
    ensures
        rows_bottom_up(data, w, line).len() == h * l,
    decreases h,
{
    if h == 0 {
        assert(data.len() == 0) by (nonlinear_arith)
            requires
                data.len() == w * h,
                h == 0,
        ;
    } else {
        assert(data.len() >= w && data.len() - w == w * (h - 1)) by (nonlinear_arith)
            requires
                data.len() == w * h,
                h > 0,
        ;
        lemma_rows_len(data.skip(w as int), w, (h - 1) as nat, line, l);
        assert(data.take(w as int).len() == w);
        assert(rows_bottom_up(data, w, line) == rows_bottom_up(data.skip(w as int), w, line) + line(
            data.take(w as int),
        ));
        assert(h * l == (h - 1) * l + l) by (nonlinear_arith);
    }
}

proof fn lemma_pad4_len(bytes: Seq<u8>)
    ensures
        pad4(bytes).len() == round4(bytes.len()),
{
}

proof fn lemma_pixel_row_len(row: Seq<ColorPixel>, d: ColorDepth)
    requires
        !is_indexed_depth(d),
    ensures
        pixel_row(row, d).len() == row_size(d, row.len()),
    decreases row.len(),
{
    if row.len() > 0 {
        lemma_pixel_row_len(row.drop_last(), d);
        reveal_with_fuel(le_bytes, 3);
    }
}

proof fn lemma_packed_row_len(row: Seq<usize>, m: nat, k: nat)
    requires
        k == 1 || k == 2 || k == 8,
    ensures
        packed_row(row, m, k).len() == ((row.len() + k - 1) as nat) / k,
    decreases row.len(),
{
    if row.len() > 0 {
        let c: int = if row.len() < k {
            row.len() as int
        } else {
            k as int
        };
        lemma_packed_row_len(row.skip(c), m, k);
        if k == 1 {
        } else if k == 2 {
        } else {
        }
    }
}

proof fn lemma_palette_bytes_len(p: Seq<ColorPixel>)
    ensures
        palette_bytes(p).len() == 4 * p.len(),
    decreases p.len(),
{
    if p.len() > 0 {
        lemma_palette_bytes_len(p.drop_last());
    }
}

/// When the pixels of an image fill its rows, and an indexed image has no
/// more colors than its depth allows, its color table takes
/// `color_table_size` bytes and its byte size is the length of its bytes.
pub proof fn lemma_image_size(img: RawImage)
    requires
        img.data@.len() == img.width * img.height,
        is_indexed_depth(img.depth) ==> palette_of(img.data@).len() <= pow2(
            depth_bits(img.depth) as nat,
        ),
    ensures
        color_table(img).len() == color_table_size(img.depth),
        image_bytes(img).len() == image_byte_size(img),
{
    let w = img.width as nat;
    let h = img.height as nat;
    let d = img.depth;
    let l = round4(row_size(d, w));
    vstd::arithmetic::power2::lemma2_to64();
    if is_indexed_depth(d) {
        lemma_palette_bytes_len(indexed_palette(img.data@, depth_bits(d) as nat));
    }
    if w == 0 {
        assert(img.data@.len() == 0);
        assert(pixel_data(img).len() == 0);
    } else if is_indexed_depth(d) {
        let line = |row: Seq<usize>| indexed_line(row, d);
        assert forall|row: Seq<usize>| row.len() == w implies #[trigger] line(row).len() == l by {
            lemma_packed_row_len(row, index_base(d), indices_per_byte(d));
            lemma_pad4_len(packed_row(row, index_base(d), indices_per_byte(d)));
        }
        lemma_rows_len(pixel_indices(img.data@), w, h, line, l);
    } else {
        let line = |row: Seq<ColorPixel>| pixel_line(row, d);
        assert forall|row: Seq<ColorPixel>| row.len() == w implies #[trigger] line(row).len()
            == l by {
            lemma_pixel_row_len(row, d);
            lemma_pad4_len(pixel_row(row, d));
        }
        lemma_rows_len(img.data@, w, h, line, l);
    }
    assert(h * l == l * h) by (nonlinear_arith);
}

// ---------------------------------------------------------------------------
// Headers
// ---------------------------------------------------------------------------

/// The BITMAPFILEHEADER.
pub struct BitmapFileHeader {
    /// The file type; must be 0x4d42 (the ASCII string "BM").
    bf_type: u16,
    /// The size, in bytes, of the bitmap file.
    bf_size: u32,
    /// Reserved; must be zero.
    bf_reserved1: u16,
    /// Reserved; must be zero.
    bf_reserved2: u16,
    /// The offset, in bytes, from the beginning of the BITMAPFILEHEADER structure to the bitmap bits.
    bf_off_bits: u32,
}

/// The 14 bytes of a file header for a file of `size` bytes whose pixels
/// start at `off_bits`.
pub open spec fn file_header_bytes(size: u32, off_bits: u32) -> Seq<u8> {
    le_bytes(0x4d42, 2) + le_bytes(size as nat, 4) + le_bytes(0, 2) + le_bytes(0, 2) + le_bytes(
        off_bits as nat,
        4,
    )
}

impl BitmapFileHeader {
    /// The file size that the header records.
    pub closed spec fn file_size(&self) -> u32 {
        self.bf_size
    }

    /// Where the header says the pixels start.
    pub closed spec fn off_bits(&self) -> u32 {
        self.bf_off_bits
    }

    /// The header is of the "BM" type, with zero reserved fields.
    #[verifier::type_invariant]
    closed spec fn well_formed(&self) -> bool {
        self.bf_type == 0x4d42 && self.bf_reserved1 == 0 && self.bf_reserved2 == 0
    }

    /// A header for a file of `size` bytes, pixels at offset 0.
    pub fn new(size: u32) -> (r: Self)
        ensures
            r.file_size() == size,
            r.off_bits() == 0,
    {
        Self {
            bf_type: 0x4d42,
            bf_size: size,
            bf_reserved1: 0,
            bf_reserved2: 0,
            bf_off_bits: 0,
        }
    }

    /// The 14 bytes of the header, little-endian.
    pub fn to_bytes(&self) -> (r: Vec<u8>)
        ensures
            r@ == file_header_bytes(self.file_size(), self.off_bits()),
            r@.len() == 14,
    {
        proof {
            use_type_invariant(self);
        }
        let mut buf: Vec<u8> = Vec::new();
        push_u16_le(&mut buf, self.bf_type);
        push_u32_le(&mut buf, self.bf_size);
        push_u16_le(&mut buf, self.bf_reserved1);
        push_u16_le(&mut buf, self.bf_reserved2);
        push_u32_le(&mut buf, self.bf_off_bits);
        assert(buf@ =~= file_header_bytes(self.file_size(), self.off_bits()));
        proof {
            reveal_with_fuel(le_bytes, 5);
        }
        buf
    }

    /// Records that the pixels start at `offset` and take `size` bytes.
    pub fn set_image_data_info(&mut self, offset: u32, size: u32)
        requires
            offset + size <= u32::MAX,
        ensures
            final(self).off_bits() == offset,
            final(self).file_size() == offset + size,
    {
        proof {
            use_type_invariant(&*self);
        }
        self.bf_off_bits = offset;
        self.bf_size = offset + size;
    }

    /// Size of the header in bytes.
    pub fn get_byte_size() -> (r: u32)
        ensures
            r == 14,
    {
        14
    }
}

/// The BITMAPINFOHEADER.
pub struct BitmapInfoHeader {
    bi_size: u32,
    bi_width: u32,
    bi_height: u32,
    bi_planes: u16,
    bi_bit_count: u16,
    bi_compression: u32,
    bi_size_image: u32,
    bi_x_pels_per_meter: u32,
    bi_y_pels_per_meter: u32,
    bi_clr_used: u32,
    bi_clr_important: u32,
}

/// The 40 bytes of the info header of a `width` x `height` image of depth
/// `d`: uncompressed, one plane, 3780 pixels per meter (96 dpi).
pub open spec fn info_header_bytes(d: ColorDepth, width: u32, height: u32) -> Seq<u8> {
    le_bytes(40, 4) + le_bytes(width as nat, 4) + le_bytes(height as nat, 4) + le_bytes(1, 2)
        + le_bytes(depth_bits(d) as nat, 2) + le_bytes(BI_RGB as nat, 4) + le_bytes(0, 4)
        + le_bytes(3780, 4) + le_bytes(3780, 4) + le_bytes(colors_used(d) as nat, 4) + le_bytes(
        0,
        4,
    )
}

impl BitmapInfoHeader {
    /// The 40 bytes of the header.
    pub closed spec fn info_bytes(&self) -> Seq<u8> {
        le_bytes(self.bi_size as nat, 4) + le_bytes(self.bi_width as nat, 4) + le_bytes(
            self.bi_height as nat,
            4,
        ) + le_bytes(self.bi_planes as nat, 2) + le_bytes(self.bi_bit_count as nat, 2) + le_bytes(
            self.bi_compression as nat,
            4,
        ) + le_bytes(self.bi_size_image as nat, 4) + le_bytes(self.bi_x_pels_per_meter as nat, 4)
            + le_bytes(self.bi_y_pels_per_meter as nat, 4) + le_bytes(self.bi_clr_used as nat, 4)
            + le_bytes(self.bi_clr_important as nat, 4)
    }

    /// The header of a `width` x `height` image of depth `color_depth`.
    pub fn new(color_depth: ColorDepth, width: u32, height: u32) -> (r: Self)
        ensures
            r.info_bytes() == info_header_bytes(color_depth, width, height),
    {
        Self {
            bi_size: BitmapInfoHeader::get_byte_size(),
            bi_width: width,
            bi_height: height,
            bi_planes: 1,
            bi_bit_count: color_depth.bits() as u16,
            bi_compression: BI_RGB,
            bi_size_image: 0,
            bi_x_pels_per_meter: 3780,
            bi_y_pels_per_meter: 3780,
            bi_clr_used: match color_depth {
                ColorDepth::Depth1 => 2,
                ColorDepth::Depth4 => 16,
                ColorDepth::Depth8 => 256,
                _ => 0,
            },
            bi_clr_important: 0,
        }
    }

    /// Size of the header in bytes.
    pub fn get_byte_size() -> (r: u32)
        ensures
            r == 40,
    {
        40
    }

    /// The 40 bytes of the header, little-endian.
    pub fn to_bytes(&self) -> (r: Vec<u8>)
        ensures
            r@ == self.info_bytes(),
            r@.len() == 40,
    {
        let mut buf: Vec<u8> = Vec::new();
        push_u32_le(&mut buf, self.bi_size);
        push_u32_le(&mut buf, self.bi_width);
        push_u32_le(&mut buf, self.bi_height);
        push_u16_le(&mut buf, self.bi_planes);
        push_u16_le(&mut buf, self.bi_bit_count);
        push_u32_le(&mut buf, self.bi_compression);
        push_u32_le(&mut buf, self.bi_size_image);
        push_u32_le(&mut buf, self.bi_x_pels_per_meter);
        push_u32_le(&mut buf, self.bi_y_pels_per_meter);
        push_u32_le(&mut buf, self.bi_clr_used);
        push_u32_le(&mut buf, self.bi_clr_important);
        assert(buf@ =~= self.info_bytes());
        proof {
            reveal_with_fuel(le_bytes, 5);
        }
        buf
    }
}

/// A color table entry.
pub struct RgbQuad {
    /// The intensity of blue in the color.
    blue: u8,
    /// The intensity of green in the color.
    green: u8,
    /// The intensity of red in the color.
    red: u8,
    /// This member is reserved and must be zero.
    reserved: u8,
}

impl RgbQuad {
    /// The color table entry bytes of this entry.
    pub closed spec fn quad_view(&self) -> Seq<u8> {
        seq![self.blue, self.green, self.red, self.reserved]
    }

    /// The 4 bytes of the entry: blue, green, red, reserved.
    pub fn to_bytes(&self) -> (r: Vec<u8>)
        ensures
            r@ == self.quad_view(),
    {
        let r = vec![self.blue, self.green, self.red, self.reserved];
        assert(r@ =~= self.quad_view());
        r
    }

    /// Size of an entry in bytes.
    pub fn get_byte_size() -> (r: u32)
        ensures
            r == 4,
    {
        4
    }
}

impl From<ColorPixel> for RgbQuad {
    fn from(value: ColorPixel) -> (r: Self) {
        Self { blue: value.b, green: value.g, red: value.r, reserved: 0 }
    }
}

impl vstd::std_specs::convert::FromSpecImpl<ColorPixel> for RgbQuad {
    open spec fn obeys_from_spec() -> bool {
        true
    }

    closed spec fn from_spec(v: ColorPixel) -> Self {
        RgbQuad { blue: v.b, green: v.g, red: v.r, reserved: 0 }
    }
}

pub proof fn lemma_quad_from(p: ColorPixel)
    ensures
        <RgbQuad as vstd::std_specs::convert::FromSpec<ColorPixel>>::from_spec(p).quad_view()
            == quad_bytes(p),
{
    assert(<RgbQuad as vstd::std_specs::convert::FromSpec<ColorPixel>>::from_spec(p).quad_view() =~= quad_bytes(p));
}

/// A bitmap file.
pub struct Bitmap {
    file_header: BitmapFileHeader,
    info_header: BitmapInfoHeader,
    pub color_data: RawImage,
}

impl Bitmap {
    /// The image of the file.
    pub closed spec fn image(&self) -> RawImage {
        self.color_data
    }

    /// The file size that the file header records.
    pub closed spec fn file_size(&self) -> u32 {
        self.file_header.file_size()
    }

    /// Where the file header says the pixels start.
    pub closed spec fn off_bits(&self) -> u32 {
        self.file_header.off_bits()
    }

    /// The bytes of the info header.
    pub closed spec fn info_bytes(&self) -> Seq<u8> {
        self.info_header.info_bytes()
    }

    /// A bitmap file of `image`: the file header records the pixels after
    /// the two headers and the color table, and as file size the 54 header
    /// bytes plus the image's byte size; the info header describes the image.
    pub fn new(image: RawImage) -> (r: Self)
        requires
            image.width * image.height <= u32::MAX,
            image_size_fits(image),
            54 + image_byte_size(image) <= u32::MAX,
        ensures
            r.image() == image,
            r.file_size() == 54 + image_byte_size(image),
            r.off_bits() == 54 + color_table_size(image.depth),
            r.info_bytes() == info_header_bytes(image.depth, image.width, image.height),
    {
        let mut file_header = BitmapFileHeader::new(image.width * image.height);
        let info_header = BitmapInfoHeader::new(image.depth, image.width, image.height);
        let table = color_table_len(image.depth);
        let size = image.get_byte_size();
        file_header.set_image_data_info(
            BitmapFileHeader::get_byte_size() + BitmapInfoHeader::get_byte_size() + table,
            size - table,
        );
        Bitmap { file_header, info_header, color_data: image }
    }

    /// The bytes of the file: file header, info header, image.
    pub fn to_bytes(&self) -> (r: Vec<u8>)
        requires
            image_bytes_ok(self.image()),
        ensures
            r@ == file_header_bytes(self.file_size(), self.off_bits()) + self.info_bytes()
                + image_bytes(self.image()),
    {
        let mut buf: Vec<u8> = Vec::new();
        let mut f = self.file_header.to_bytes();
        buf.append(&mut f);
        let mut i = self.info_header.to_bytes();
        buf.append(&mut i);
        let mut d = self.color_data.to_bytes();
        buf.append(&mut d);
        buf
    }
}

/// The file of an image whose pixels fill its rows (and whose colors fit
/// its depth, if indexed): the size that its header records is its length,
/// and the pixel offset that its header records is where the pixel rows
/// begin, after the two headers and the color table.
pub proof fn lemma_bitmap_layout(img: RawImage)
    requires
        img.data@.len() == img.width * img.height,
        is_indexed_depth(img.depth) ==> palette_of(img.data@).len() <= pow2(
            depth_bits(img.depth) as nat,
        ),
        54 + image_byte_size(img) <= u32::MAX,
    ensures
        ({
            let file = file_header_bytes(
                (54 + image_byte_size(img)) as u32,
                (54 + color_table_size(img.depth)) as u32,
            ) + info_header_bytes(img.depth, img.width, img.height) + image_bytes(img);
            &&& file.len() == 54 + image_byte_size(img)
            &&& file.skip(54 + color_table_size(img.depth) as int) == pixel_data(img)
        }),
{
    lemma_image_size(img);
    reveal_with_fuel(le_bytes, 5);
    let head = file_header_bytes(
        (54 + image_byte_size(img)) as u32,
        (54 + color_table_size(img.depth)) as u32,
    ) + info_header_bytes(img.depth, img.width, img.height);
    assert(head.len() == 54);
    let file = head + image_bytes(img);
    assert(file.skip(54 + color_table_size(img.depth) as int) =~= pixel_data(img));
}

} // verus!
