use vstd::prelude::*;

verus! {

/// One 8-bit RGB pixel.
#[derive(Clone, Copy, Debug, PartialEq, Eq, Structural)]
pub struct Rgb {
    pub r: u8,
    pub g: u8,
    pub b: u8,
}

/// An immutable width x height grid of RGB pixels, stored row-major.
#[derive(Clone, Debug)]
pub struct Bitmap {
    pub width: u32,
    pub height: u32,
    pub pixels: Vec<Rgb>,
}

impl Bitmap {
    /// The pixel buffer holds exactly one entry per coordinate.
    pub open spec fn wf(&self) -> bool {
        self.pixels@.len() == self.width as int * self.height as int
    }

    /// The colour at column `x`, row `y`.
    pub open spec fn pixel(&self, x: int, y: int) -> Rgb {
        self.pixels@[y * self.width as int + x]
    }

    /// Row `y`, read left to right.
    pub open spec fn row(&self, y: int) -> Seq<Rgb> {
        Seq::new(self.width as nat, |x: int| self.pixel(x, y))
    }

    /// Column `x`, read top to bottom.
    pub open spec fn col(&self, x: int) -> Seq<Rgb> {
        Seq::new(self.height as nat, |y: int| self.pixel(x, y))
    }

    /// Builds a bitmap from its row-major pixels; `None` when their number is not
    /// `width * height`.
    pub fn new(width: u32, height: u32, pixels: Vec<Rgb>) -> (r: Option<Bitmap>)
        ensures
            pixels@.len() == width as int * height as int <==> r is Some,
            r matches Some(bm) ==> bm.wf() && bm.width == width && bm.height == height
                && bm.pixels@ == pixels@,
    {
        if pixels.len() as u64 == area(width, height) {
            Some(Bitmap { width, height, pixels })
        } else {
            None
        }
    }

    /// Builds a bitmap from row-major RGB bytes, three per pixel; `None` when their
    /// number is not `3 * width * height`.
    pub fn from_rgb_bytes(width: u32, height: u32, bytes: &Vec<u8>) -> (r: Option<Bitmap>)
        ensures
            bytes@.len() == 3 * (width as int * height as int) <==> r is Some,
            r matches Some(bm) ==> {
                &&& bm.wf()
                &&& bm.width == width
                &&& bm.height == height
                &&& forall|i: int|
                    0 <= i < bm.pixels@.len() ==> #[trigger] bm.pixels@[i] == (Rgb {
                        r: bytes@[3 * i],
                        g: bytes@[3 * i + 1],
                        b: bytes@[3 * i + 2],
                    })
            },
    {
        let n: u64 = area(width, height);
        if bytes.len() as u64 / 3 != n || bytes.len() % 3 != 0 {
            return None;
        }
        let blen: usize = bytes.len();
        let mut pixels: Vec<Rgb> = Vec::new();
        let mut i: usize = 0;
        while (i as u64) < n
            invariant
                n == width as int * height as int,
                blen == bytes@.len(),
                bytes@.len() == 3 * n,
                i <= n,
                pixels@.len() == i,
                forall|k: int|
                    0 <= k < i ==> #[trigger] pixels@[k] == (Rgb {
                        r: bytes@[3 * k],
                        g: bytes@[3 * k + 1],
                        b: bytes@[3 * k + 2],
                    }),
            decreases n - i,
        {
            let k: usize = 3 * i;
            pixels.push(Rgb { r: bytes[k], g: bytes[k + 1], b: bytes[k + 2] });
            i = i + 1;
        }
        Some(Bitmap { width, height, pixels })
    }

    /// A bitmap of one colour.
    pub fn filled(width: u32, height: u32, color: Rgb) -> (r: Bitmap)
        requires
            width as int * height as int <= usize::MAX,
        ensures
            r.wf(),
            r.width == width,
            r.height == height,
            forall|x: int, y: int|
                0 <= x < width && 0 <= y < height ==> #[trigger] r.pixel(x, y) == color,
    {
        let n: usize = area(width, height) as usize;
        let mut pixels: Vec<Rgb> = Vec::new();
        let mut i: usize = 0;
        while i < n
            invariant
                i <= n,
                pixels@.len() == i,
                forall|k: int| 0 <= k < i ==> #[trigger] pixels@[k] == color,
            decreases n - i,
        {
            pixels.push(color);
            i = i + 1;
        }
        let r = Bitmap { width, height, pixels };
        assert forall|x: int, y: int| 0 <= x < width && 0 <= y < height implies #[trigger] r.pixel(
            x,
            y,
        ) == color by {
            lemma_index_in_grid(x, y, width as int, height as int);
        }
        r
    }

    /// Position of column `x`, row `y` in the pixel buffer.
    fn index_of(&self, x: u32, y: u32) -> (i: usize)
        requires
            self.wf(),
            x < self.width,
            y < self.height,
        ensures
            i == y as int * self.width as int + x as int,
            i < self.pixels@.len(),
    {
        let n: usize = self.pixels.len();
        proof {
            lemma_index_in_grid(x as int, y as int, self.width as int, self.height as int);
        }
        (y as u64 * self.width as u64 + x as u64) as usize
    }

    /// The colour at column `x`, row `y`.
    pub fn get_pixel(&self, x: u32, y: u32) -> (c: Rgb)
        requires
            self.wf(),
            x < self.width,
            y < self.height,
        ensures
            c == self.pixel(x as int, y as int),
    {
        self.pixels[self.index_of(x, y)]
    }

    /// Sets one pixel; every other pixel keeps its colour.
    pub fn put_pixel(&mut self, x: u32, y: u32, color: Rgb)
        requires
            old(self).wf(),
            x < old(self).width,
            y < old(self).height,
        ensures
            final(self).wf(),
            final(self).width == old(self).width,
            final(self).height == old(self).height,
            final(self).pixel(x as int, y as int) == color,
            forall|i: int, j: int|
                0 <= i < old(self).width && 0 <= j < old(self).height && (i != x || j != y)
                    ==> #[trigger] final(self).pixel(i, j) == old(self).pixel(i, j),
    {
        let idx: usize = self.index_of(x, y);
        self.pixels.set(idx, color);
        proof {
            assert forall|i: int, j: int|
                0 <= i < old(self).width && 0 <= j < old(self).height && (i != x || j != y)
                    implies #[trigger] self.pixel(i, j) == old(self).pixel(i, j) by {
                lemma_index_in_grid(i, j, self.width as int, self.height as int);
                lemma_index_distinct(i, j, x as int, y as int, self.width as int);
            }
        }
    }
}

/// Number of pixels of a width x height grid.
pub fn area(width: u32, height: u32) -> (n: u64)
    ensures
        n == width as int * height as int,
{
    proof {
        assert(width as int * height as int <= u32::MAX as int * u32::MAX as int) by (nonlinear_arith)
            requires
                width <= u32::MAX,
                height <= u32::MAX,
        ;
    }
    width as u64 * height as u64
}

/// A grid coordinate maps into the row-major buffer.
pub proof fn lemma_index_in_grid(x: int, y: int, w: int, h: int)
    requires
        0 <= x < w,
        0 <= y < h,
    ensures
        0 <= y * w + x < w * h,
        y * w + x + 1 <= w * h,
{
    assert(y * w + x < w * h) by (nonlinear_arith)
        requires
            0 <= x < w,
            0 <= y < h,
    ;
    assert(0 <= y * w) by (nonlinear_arith)
        requires
            0 <= y,
            0 < w,
    ;
}

/// Distinct in-row coordinates occupy distinct buffer cells.
pub proof fn lemma_index_distinct(x1: int, y1: int, x2: int, y2: int, w: int)
    requires
        0 <= x1 < w,
        0 <= x2 < w,
        0 <= y1,
        0 <= y2,
        x1 != x2 || y1 != y2,
    ensures
        y1 * w + x1 != y2 * w + x2,
{
    if y1 == y2 {
    } else if y1 < y2 {
        assert(y1 * w + w <= y2 * w) by (nonlinear_arith)
            requires
                y1 < y2,
                0 < w,
        ;
    } else {
        assert(y2 * w + w <= y1 * w) by (nonlinear_arith)
            requires
                y2 < y1,
                0 < w,
        ;
    }
}

} // verus!
