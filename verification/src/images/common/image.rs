//! Pixels and raw images.
use vstd::prelude::*;
use vstd::arithmetic::power2::pow2;

use crate::images::common::{depth_bits, ColorDepth};

verus! {

/// A color with alpha channel.
#[derive(Clone, Copy, PartialEq, Eq, Structural, Debug)]
pub struct ColorPixel {
    pub r: u8,
    pub g: u8,
    pub b: u8,
    pub a: u8,
}

/// An opaque color.
pub open spec fn rgb(r: u8, g: u8, b: u8) -> ColorPixel {
    ColorPixel { r, g, b, a: 255 }
}

impl ColorPixel {
    /// An opaque color.
    pub fn new_rgb(r: u8, g: u8, b: u8) -> (p: Self)
        ensures
            p == rgb(r, g, b),
    {
        Self { r, g, b, a: 255 }
    }

    /// A color with the given alpha.
    pub fn new_rgba(r: u8, g: u8, b: u8, a: u8) -> (p: Self)
        ensures
            p == (ColorPixel { r, g, b, a }),
    {
        Self { r, g, b, a }
    }

    pub fn white() -> (p: Self)
        ensures
            p == rgb(255, 255, 255),
    {
        Self::new_rgb(255, 255, 255)
    }

    pub fn black() -> (p: Self)
        ensures
            p == rgb(0, 0, 0),
    {
        Self::new_rgb(0, 0, 0)
    }

    pub fn red() -> (p: Self)
        ensures
            p == rgb(255, 0, 0),
    {
        Self::new_rgb(255, 0, 0)
    }

    pub fn green() -> (p: Self)
        ensures
            p == rgb(0, 255, 0),
    {
        Self::new_rgb(0, 255, 0)
    }

    pub fn blue() -> (p: Self)
        ensures
            p == rgb(0, 0, 255),
    {
        Self::new_rgb(0, 0, 255)
    }

    pub fn white_transparent() -> (p: Self)
        ensures
            p == (ColorPixel { r: 255, g: 255, b: 255, a: 0 }),
    {
        Self::new_rgba(255, 255, 255, 0)
    }

    pub fn black_transparent() -> (p: Self)
        ensures
            p == (ColorPixel { r: 0, g: 0, b: 0, a: 0 }),
    {
        Self::new_rgba(0, 0, 0, 0)
    }
}

/// An image as rows of pixels, top row first.
pub struct RawImage {
    pub data: Vec<ColorPixel>,
    pub width: u32,
    pub height: u32,
    pub depth: ColorDepth,
}

/// The distinct colors of `data`, in the order of their first appearance.
pub open spec fn palette_of(data: Seq<ColorPixel>) -> Seq<ColorPixel>
    decreases data.len(),
{
    if data.len() == 0 {
        seq![]
    } else {
        let p = palette_of(data.drop_last());
        if p.contains(data.last()) {
            p
        } else {
            p.push(data.last())
        }
    }
}

/// The first index of `x` in `p`, or `-1`.
pub open spec fn first_index(p: Seq<ColorPixel>, x: ColorPixel) -> int
    decreases p.len(),
{
    if p.len() == 0 {
        -1
    } else if p.last() == x && first_index(p.drop_last(), x) < 0 {
        p.len() - 1
    } else {
        first_index(p.drop_last(), x)
    }
}

/// What `get_indexed_info` returns: the palette of the image filled up to
/// `2^bits` colors with white, and the palette index of every pixel.
pub open spec fn indexed_palette(data: Seq<ColorPixel>, bits: nat) -> Seq<ColorPixel> {
    palette_of(data) + Seq::new(
        (pow2(bits) - palette_of(data).len()) as nat,
        |i: int| rgb(255, 255, 255),
    )
}

pub proof fn lemma_first_index(p: Seq<ColorPixel>, x: ColorPixel)
    ensures
        -1 <= first_index(p, x) < p.len(),
        first_index(p, x) >= 0 ==> p[first_index(p, x)] == x,
        first_index(p, x) < 0 <==> !p.contains(x),
        first_index(p, x) >= 0 ==> forall|j: int| 0 <= j < first_index(p, x) ==> p[j] != x,
    decreases p.len(),
{
    if p.len() > 0 {
        let d = p.drop_last();
        lemma_first_index(d, x);
        assert forall|j: int| 0 <= j < d.len() implies #[trigger] p[j] == d[j] by {}
        if first_index(p, x) < 0 {
            assert forall|j: int| 0 <= j < p.len() implies p[j] != x by {
                if j < d.len() {
                    assert(d[j] == p[j]);
                }
            }
        } else {
            assert(p.contains(x));
        }
    }
}

proof fn lemma_first_index_push(p: Seq<ColorPixel>, y: ColorPixel, x: ColorPixel)
    requires
        p.contains(x),
    ensures
        first_index(p.push(y), x) == first_index(p, x),
{
    lemma_first_index(p, x);
    assert(p.push(y).drop_last() =~= p);
}

/// The palette holds each color once.
pub proof fn lemma_palette_distinct(data: Seq<ColorPixel>)
    ensures
        forall|i: int, j: int|
            0 <= i < j < palette_of(data).len() ==> palette_of(data)[i] != palette_of(data)[j],
        forall|k: int| 0 <= k < data.len() ==> palette_of(data).contains(#[trigger] data[k]),
    decreases data.len(),
{
    if data.len() > 0 {
        let d = data.drop_last();
        lemma_palette_distinct(d);
        let p = palette_of(d);
        if !p.contains(data.last()) {
            assert forall|i: int, j: int|
                0 <= i < j < palette_of(data).len() implies palette_of(data)[i] != palette_of(
                data,
            )[j] by {
                if j == p.len() {
                    assert(p[i] != data.last());
                }
            }
        }
        assert forall|k: int| 0 <= k < data.len() implies palette_of(data).contains(
            #[trigger] data[k],
        ) by {
            if k < d.len() {
                assert(d[k] == data[k]);
                let p = palette_of(d);
                let w = choose|w: int| 0 <= w < p.len() && p[w] == d[k];
                if !p.contains(data.last()) {
                    assert(p.push(data.last())[w] == d[k]);
                }
            } else {
                let p = palette_of(d);
                if !p.contains(data.last()) {
                    assert(p.push(data.last())[p.len() as int] == data.last());
                }
            }
        }
    }
}

impl RawImage {
    /// An all-black image.
    pub fn new(width: u32, height: u32, color_depth: ColorDepth) -> (r: Self)
        requires
            width * height <= u32::MAX,
        ensures
            r.width == width,
            r.height == height,
            r.depth == color_depth,
            r.data@ == Seq::new((width * height) as nat, |i: int| rgb(0, 0, 0)),
    {
        let n = (width * height) as usize;
        let mut data: Vec<ColorPixel> = Vec::new();
        let mut i: usize = 0;
        while i < n
            invariant
                i <= n,
                data@ == Seq::new(i as nat, |k: int| rgb(0, 0, 0)),
            decreases n - i,
        {
            data.push(ColorPixel::black());
            i = i + 1;
            assert(data@ =~= Seq::new(i as nat, |k: int| rgb(0, 0, 0)));
        }
        Self { data, width, height, depth: color_depth }
    }

    /// Sets the pixel in column `x` of row `y`.
    pub fn set(&mut self, x: u32, y: u32, pixel: ColorPixel)
        requires
            x <= old(self).width,
            y <= old(self).height,
            old(self).width * y + x < old(self).data@.len(),
            old(self).width * y + x <= u32::MAX,
        ensures
            final(self).data@ == old(self).data@.update(old(self).width * y + x, pixel),
            final(self).width == old(self).width,
            final(self).height == old(self).height,
            final(self).depth == old(self).depth,
    {
        let index = (self.width * y + x) as usize;
        self.data.set(index, pixel);
    }

    /// The palette of the image (its colors in order of first appearance,
    /// then white up to `2^depth` colors) and the palette index of every
    /// pixel.
    pub fn get_indexed_info(&self) -> (r: (Vec<ColorPixel>, Vec<usize>))
        requires
            (depth_bits(self.depth) as nat) < usize::BITS,
            palette_of(self.data@).len() <= pow2(depth_bits(self.depth) as nat),
        ensures
            r.0@ == indexed_palette(self.data@, depth_bits(self.depth) as nat),
            r.1@.len() == self.data@.len(),
            forall|k: int|
                0 <= k < self.data@.len() ==> #[trigger] r.1@[k] as int == first_index(
                    palette_of(self.data@),
                    self.data@[k],
                ),
            forall|k: int| 0 <= k < self.data@.len() ==> #[trigger] r.1@[k] < r.0@.len(),
            forall|k: int| 0 <= k < self.data@.len() ==> r.0@[#[trigger] r.1@[k] as int] == self.data@[k],
    {
        let ghost data = self.data@;
        let mut palette: Vec<ColorPixel> = Vec::new();
        let mut indexed_data: Vec<usize> = Vec::new();
        let mut i: usize = 0;
        while i < self.data.len()
            invariant
                i <= data.len(),
                data == self.data@,
                palette@ == palette_of(data.take(i as int)),
                indexed_data@.len() == i,
                forall|k: int|
                    0 <= k < i ==> #[trigger] indexed_data@[k] as int == first_index(
                        palette@,
                        data[k],
                    ),
                forall|k: int| 0 <= k < i ==> palette@.contains(#[trigger] data[k]),
            decreases data.len() - i,
        {
            let pixel = self.data[i];
            let ghost prefix = data.take(i + 1);
            assert(prefix.drop_last() =~= data.take(i as int));
            // look the color up in the palette
            let mut j: usize = 0;
            let mut found: Option<usize> = None;
            while j < palette.len()
                invariant_except_break
                    found.is_none(),
                invariant
                    j <= palette@.len(),
                    forall|t: int| 0 <= t < j ==> palette@[t] != pixel,
                ensures
                    found matches Some(f) ==> f < palette@.len() && palette@[f as int] == pixel
                        && forall|t: int| 0 <= t < f ==> palette@[t] != pixel,
                    found is None ==> forall|t: int| 0 <= t < palette@.len() ==> palette@[t] != pixel,
                decreases palette@.len() - j,
            {
                if palette[j] == pixel {
                    found = Some(j);
                    break ;
                }
                j = j + 1;
            }
            proof {
                lemma_first_index(palette@, pixel);
            }
            match found {
                Some(index) => {
                    proof {
                        assert(palette@[index as int] == pixel);
                        assert(palette@.contains(pixel));
                        let fi = first_index(palette@, pixel);
                        assert(fi == index as int);
                    }
                    indexed_data.push(index);
                },
                None => {
                    proof {
                        assert(!palette@.contains(pixel));
                        assert forall|k: int| 0 <= k < i implies #[trigger] indexed_data@[k] as int
                            == first_index(palette@.push(pixel), data[k]) by {
                            lemma_first_index_push(palette@, pixel, data[k]);
                        }
                        assert(palette@.push(pixel).drop_last() =~= palette@);
                        assert(first_index(palette@.push(pixel), pixel) == palette@.len());
                    }
                    let ghost old_palette = palette@;
                    palette.push(pixel);
                    indexed_data.push(palette.len() - 1);
                    proof {
                        assert forall|k: int| 0 <= k <= i implies palette@.contains(
                            #[trigger] data[k],
                        ) by {
                            if k < i {
                                let w = choose|w: int|
                                    0 <= w < old_palette.len() && old_palette[w] == data[k];
                                assert(palette@[w] == data[k]);
                            } else {
                                assert(palette@[old_palette.len() as int] == pixel);
                            }
                        }
                    }
                },
            }
            i = i + 1;
        }
        assert(data.take(i as int) =~= data);
        proof {
            lemma_palette_distinct(data);
        }
        let ghost pal = palette@;
        let bits = self.depth.bits();
        proof {
            vstd::bits::lemma_usize_pow2_no_overflow(bits as nat);
            vstd::bits::lemma_usize_shl_is_mul(1, bits as usize);
        }
        let palette_num: usize = 1usize << (bits as usize);
        let mut k: usize = palette.len();
        while k < palette_num
            invariant
                pal.len() <= k <= palette_num,
                palette@ == pal + Seq::new((k - pal.len()) as nat, |t: int| rgb(255, 255, 255)),
            decreases palette_num - k,
        {
            palette.push(ColorPixel::white());
            k = k + 1;
            assert(palette@ =~= pal + Seq::new((k - pal.len()) as nat, |t: int| rgb(255, 255, 255)));
        }
        proof {
            assert forall|k: int| 0 <= k < data.len() implies #[trigger] indexed_data@[k]
                < palette@.len() && palette@[indexed_data@[k] as int] == data[k] by {
                lemma_first_index(pal, data[k]);
            }
        }
        (palette, indexed_data)
    }
}

/// Formats that serialize to bytes.
pub trait BinaryInfo {
    /// The inputs on which [`BinaryInfo::to_bytes`] succeeds.
    spec fn bytes_ok(&self) -> bool;

    /// What [`BinaryInfo::to_bytes`] returns.
    spec fn binary_bytes(&self) -> Seq<u8>;

    /// The inputs on which [`BinaryInfo::get_byte_size`] does not overflow.
    spec fn size_ok(&self) -> bool;

    /// What [`BinaryInfo::get_byte_size`] returns.
    spec fn byte_size(&self) -> nat;

    fn to_bytes(&self) -> (r: Vec<u8>)
        requires
            self.bytes_ok(),
        ensures
            r@ == self.binary_bytes(),
    ;

    fn get_byte_size(&self) -> (r: u32)
        requires
            self.size_ok(),
        ensures
            r == self.byte_size(),
    ;
}

} // verus!
