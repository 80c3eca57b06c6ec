use vstd::arithmetic::div_mod::lemma_fundamental_div_mod_converse;
use vstd::prelude::*;

use crate::fixel::MAX_RESOLUTION;
use crate::pixel::Pixel;
use crate::pixel::background;
use crate::pixel::spec_background;

verus! {

/// A worker's RGBA frame buffer: `height` scanlines of `width` pixels, stored
/// row-major.
#[derive(Debug)]
pub struct FrameBuffer {
    pub width: u32,
    pub height: u32,
    pub data: Vec<Pixel>,
}

/// Two buffers carry the same dimensions and the same pixels.
pub open spec fn same_buffer(a: FrameBuffer, b: FrameBuffer) -> bool {
    a.width == b.width && a.height == b.height && a.data@ == b.data@
}

/// `scaled` holds `base`'s pixels where the two buffers overlap and the
/// background elsewhere, at the new dimensions: what a buffer resize
/// preserves.
pub open spec fn is_scaled(base: FrameBuffer, scaled: FrameBuffer, w: int, h: int) -> bool {
    &&& scaled.width == w
    &&& scaled.height == h
    &&& forall|x: int, y: int|
        0 <= x < w && 0 <= y < h ==> scaled.spec_pixel(x, y) == (if x < base.width && y
            < base.height {
            base.spec_pixel(x, y)
        } else {
            spec_background()
        })
}

/// The pixel a scale step writes at flat index `i` of the new buffer, read
/// from the base buffer where the old area overlaps.
pub open spec fn scale_source(base: FrameBuffer, new_width: int, i: int) -> Pixel {
    if (i % new_width) < base.width && (i / new_width) < base.height {
        base.spec_pixel(i % new_width, i / new_width)
    } else {
        spec_background()
    }
}

impl FrameBuffer {
    /// The pixel store has exactly one pixel per coordinate and the
    /// dimensions stay within the supported resolution.
    pub open spec fn wf(self) -> bool {
        &&& self.data@.len() == self.width * self.height
        &&& self.width <= MAX_RESOLUTION
        &&& self.height <= MAX_RESOLUTION
    }

    pub open spec fn spec_pixel(self, x: int, y: int) -> Pixel {
        self.data@[y * self.width + x]
    }

    /// A fresh buffer filled with the background color.
    pub fn new(width: u32, height: u32) -> (b: FrameBuffer)
        requires
            width <= MAX_RESOLUTION,
            height <= MAX_RESOLUTION,
        ensures
            b.wf(),
            b.width == width,
            b.height == height,
            forall|x: int, y: int|
                0 <= x < width && 0 <= y < height ==> b.spec_pixel(x, y) == spec_background(),
    {
        proof {
            lemma_area_small(width as int, height as int);
        }
        let total = (width as usize) * (height as usize);
        let mut data: Vec<Pixel> = Vec::new();
        let mut i: usize = 0;
        while i < total
            invariant
                i <= total,
                data@.len() == i,
                forall|k: int| 0 <= k < i ==> data@[k] == spec_background(),
            decreases total - i,
        {
            data.push(background());
            i = i + 1;
        }
        let b = FrameBuffer { width, height, data };
        proof {
            assert forall|x: int, y: int|
                0 <= x < width && 0 <= y < height implies b.spec_pixel(x, y)
                == spec_background() by {
                lemma_index_in_range(x, y, width as int, height as int);
            }
        }
        b
    }

    /// Reads one pixel.
    pub fn get_pixel(&self, x: u32, y: u32) -> (p: Pixel)
        requires
            self.wf(),
            x < self.width,
            y < self.height,
        ensures
            p == self.spec_pixel(x as int, y as int),
    {
        proof {
            lemma_area_small(self.width as int, self.height as int);
            lemma_index_in_range(x as int, y as int, self.width as int, self.height as int);
        }
        self.data[(y as usize) * (self.width as usize) + (x as usize)]
    }

    /// Writes one pixel; every other pixel keeps its value.
    pub fn put_pixel(&mut self, x: u32, y: u32, p: Pixel)
        requires
            old(self).wf(),
            x < old(self).width,
            y < old(self).height,
        ensures
            final(self).wf(),
            final(self).width == old(self).width,
            final(self).height == old(self).height,
            final(self).spec_pixel(x as int, y as int) == p,
            forall|a: int, b: int|
                0 <= a < old(self).width && 0 <= b < old(self).height && !(a == x && b == y)
                    ==> final(self).spec_pixel(a, b) == old(self).spec_pixel(a, b),
    {
        proof {
            lemma_area_small(self.width as int, self.height as int);
            lemma_index_in_range(x as int, y as int, self.width as int, self.height as int);
        }
        let idx = (y as usize) * (self.width as usize) + (x as usize);
        self.data.set(idx, p);
        proof {
            assert forall|a: int, b: int|
                0 <= a < old(self).width && 0 <= b < old(self).height && !(a == x as int && b
                    == y as int) implies final(self).spec_pixel(a, b) == old(self).spec_pixel(
                a,
                b,
            ) by {
                lemma_index_in_range(a, b, self.width as int, self.height as int);
                lemma_index_injective(
                    a,
                    b,
                    x as int,
                    y as int,
                    self.width as int,
                    self.height as int,
                );
            }
        }
    }

    /// An owned copy with the same dimensions and pixels.
    pub fn duplicate(&self) -> (b: FrameBuffer)
        ensures
            same_buffer(b, *self),
    {
        let mut data: Vec<Pixel> = Vec::new();
        let mut i: usize = 0;
        while i < self.data.len()
            invariant
                i <= self.data.len(),
                data@ == self.data@.take(i as int),
            decreases self.data.len() - i,
        {
            data.push(self.data[i]);
            proof {
                assert(self.data@.take(i + 1 as int) == self.data@.take(i as int).push(
                    self.data@[i as int],
                ));
            }
            i = i + 1;
        }
        proof {
            assert(self.data@.take(self.data@.len() as int) == self.data@);
        }
        FrameBuffer { width: self.width, height: self.height, data }
    }

    /// Whether this buffer is well formed, decided at run time; lets a caller
    /// validate a buffer that arrived from outside the verified code.
    pub fn check(&self) -> (r: bool)
        ensures
            r == self.wf(),
    {
        if self.width > MAX_RESOLUTION as u32 || self.height > MAX_RESOLUTION as u32 {
            return false;
        }
        proof {
            lemma_area_small(self.width as int, self.height as int);
        }
        self.data.len() == (self.width as usize) * (self.height as usize)
    }

    /// A copy at new dimensions: pixels already drawn keep their value at
    /// their old coordinates where the buffers overlap; new area is filled
    /// with the background.
    pub fn scale(&self, new_width: u32, new_height: u32) -> (b: FrameBuffer)
        requires
            self.wf(),
            new_width <= MAX_RESOLUTION,
            new_height <= MAX_RESOLUTION,
        ensures
            b.wf(),
            is_scaled(*self, b, new_width as int, new_height as int),
    {
        proof {
            lemma_area_small(new_width as int, new_height as int);
        }
        let total = (new_width as usize) * (new_height as usize);
        proof {
            assert(total > 0 ==> new_width > 0 && new_height > 0) by (nonlinear_arith)
                requires
                    total == (new_width as int) * (new_height as int),
            ;
        }
        let mut data: Vec<Pixel> = Vec::new();
        let mut x: u32 = 0;
        let mut y: u32 = 0;
        let mut i: usize = 0;
        while i < total
            invariant
                self.wf(),
                new_width <= MAX_RESOLUTION,
                new_height <= MAX_RESOLUTION,
                total == new_width * new_height,
                i <= total,
                i == y * new_width + x,
                x < new_width || (x == 0 && new_width == 0),
                i < total ==> x < new_width && y < new_height,
                data@.len() == i,
                forall|k: int|
                    0 <= k < i ==> #[trigger] data@[k] == scale_source(
                        *self,
                        new_width as int,
                        k,
                    ),
            decreases total - i,
        {
            let p = if x < self.width && y < self.height {
                self.get_pixel(x, y)
            } else {
                background()
            };
            data.push(p);
            proof {
                lemma_fundamental_div_mod_converse(
                    i as int,
                    new_width as int,
                    y as int,
                    x as int,
                );
            }
            i = i + 1;
            x = x + 1;
            if x == new_width {
                x = 0;
                y = y + 1;
                proof {
                    assert((y as int) * (new_width as int) == (y as int - 1) * (new_width as int)
                        + new_width as int) by (nonlinear_arith);
                }
            }
            proof {
                assert(i < total ==> x < new_width && y < new_height) by (nonlinear_arith)
                    requires
                        i as int == (y as int) * (new_width as int) + x as int,
                        total == (new_width as int) * (new_height as int),
                        x < new_width || (x == 0 && new_width == 0),
                        0 <= x,
                        0 <= y,
                ;
            }
        }
        let b = FrameBuffer { width: new_width, height: new_height, data };
        proof {
            assert forall|a: int, c: int|
                0 <= a < new_width && 0 <= c < new_height implies b.spec_pixel(a, c) == (if a
                < self.width && c < self.height {
                self.spec_pixel(a, c)
            } else {
                spec_background()
            }) by {
                lemma_index_in_range(a, c, new_width as int, new_height as int);
                lemma_fundamental_div_mod_converse(
                    c * new_width as int + a,
                    new_width as int,
                    c,
                    a,
                );
            }
        }
        b
    }
}

/// A buffer's area stays comfortably inside the machine's index range.
proof fn lemma_area_small(w: int, h: int)
    requires
        0 <= w <= MAX_RESOLUTION,
        0 <= h <= MAX_RESOLUTION,
    ensures
        w * h <= 0x10000000,
{
    assert(w * h <= 0x10000000) by (nonlinear_arith)
        requires
            0 <= w <= MAX_RESOLUTION,
            0 <= h <= MAX_RESOLUTION,
    ;
}

/// Row-major indexing keeps in-range coordinates inside the store.
proof fn lemma_index_in_range(x: int, y: int, w: int, h: int)
    requires
        0 <= x < w,
        0 <= y < h,
    ensures
        0 <= y * w + x < w * h,
{
    assert(y * w + x < w * h) by (nonlinear_arith)
        requires
            0 <= x < w,
            0 <= y < h,
    ;
}

/// Distinct in-range coordinates map to distinct row-major indices.
proof fn lemma_index_injective(a: int, b: int, x: int, y: int, w: int, h: int)
    requires
        0 <= a < w,
        0 <= b < h,
        0 <= x < w,
        0 <= y < h,
        !(a == x && b == y),
    ensures
        b * w + a != y * w + x,
{
    assert(b * w + a != y * w + x) by (nonlinear_arith)
        requires
            0 <= a < w,
            0 <= x < w,
            !(a == x && b == y),
    ;
}

} // verus!
