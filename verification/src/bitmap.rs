//! Decoded images: a rectangle of RGBA pixels held as raw bytes.
//!
//! The bytes are laid out row by row from the top, each row from the left,
//! four bytes per pixel in the order red, green, blue, alpha. This is the
//! order in which the frame stream carries a frame.
use vstd::prelude::*;

verus! {

/// One pixel: red, green, blue, alpha.
pub type Pixel = (u8, u8, u8, u8);

/// A decoded RGBA image.
pub struct Bitmap {
    /// Pixels per row.
    pub width: usize,
    /// Number of rows.
    pub height: usize,
    /// The pixels, row by row, four bytes each.
    pub data: Vec<u8>,
}

/// What a decoded image amounts to: its size and its bytes.
pub struct Image {
    /// Pixels per row.
    pub width: nat,
    /// Number of rows.
    pub height: nat,
    /// The pixels, row by row, four bytes each.
    pub bytes: Seq<u8>,
}

impl View for Bitmap {
    type V = Image;

    open spec fn view(&self) -> Image {
        Image { width: self.width as nat, height: self.height as nat, bytes: self.data@ }
    }
}

/// Offset of the first byte of pixel `(x, y)` in a buffer whose rows hold
/// `width` pixels.
pub open spec fn pixel_offset(width: int, x: int, y: int) -> int {
    (y * width + x) * 4
}

/// Whether a rectangle of `width` by `height` pixels placed with its top left
/// corner at `(x, y)` contains the point `(px, py)`.
pub open spec fn covers(width: int, height: int, x: int, y: int, px: int, py: int) -> bool {
    x <= px < x + width && y <= py < y + height
}

/// The bytes of a pixel inside an image lie inside the image's buffer.
pub proof fn lemma_pixel_offset_bounds(width: int, height: int, x: int, y: int)
    requires
        0 <= x < width,
        0 <= y < height,
    ensures
        0 <= y * width <= y * width + x < width * height,
        0 <= pixel_offset(width, x, y),
        pixel_offset(width, x, y) + 4 <= width * height * 4,
{
    assert(0 <= y * width) by (nonlinear_arith)
        requires
            0 <= y,
            0 <= width,
    ;
    assert(y * width + width <= height * width) by (nonlinear_arith)
        requires
            y + 1 <= height,
            0 <= width,
    ;
    assert(height * width == width * height) by (nonlinear_arith);
}

/// Two different pixels of one image occupy disjoint bytes.
pub proof fn lemma_pixel_offset_disjoint(width: int, x1: int, y1: int, x2: int, y2: int)
    requires
        0 <= x1 < width,
        0 <= x2 < width,
        x1 != x2 || y1 != y2,
    ensures
        pixel_offset(width, x1, y1) + 4 <= pixel_offset(width, x2, y2) || pixel_offset(
            width,
            x2,
            y2,
        ) + 4 <= pixel_offset(width, x1, y1),
{
    if y1 < y2 {
        assert(y1 * width + width <= y2 * width) by (nonlinear_arith)
            requires
                y1 + 1 <= y2,
                0 <= width,
        ;
    } else if y2 < y1 {
        assert(y2 * width + width <= y1 * width) by (nonlinear_arith)
            requires
                y2 + 1 <= y1,
                0 <= width,
        ;
    }
}

impl Image {
    /// The buffer holds exactly the pixels of the rectangle.
    pub open spec fn wf(self) -> bool {
        self.bytes.len() == self.width * self.height * 4
    }

    /// Byte `c` (0 red, 1 green, 2 blue, 3 alpha) of pixel `(x, y)`.
    pub open spec fn byte_at(self, x: int, y: int, c: int) -> u8 {
        self.bytes[pixel_offset(self.width as int, x, y) + c]
    }

    /// Pixel `(x, y)`.
    pub open spec fn pixel_at(self, x: int, y: int) -> Pixel {
        (self.byte_at(x, y, 0), self.byte_at(x, y, 1), self.byte_at(x, y, 2), self.byte_at(x, y, 3))
    }

    /// Every byte is zero: each pixel is transparent black, the default.
    pub open spec fn is_blank(self) -> bool {
        forall|i: int| 0 <= i < self.bytes.len() ==> self.bytes[i] == 0
    }

    /// Byte `c` of pixel `(px, py)` of this image after `top` was copied
    /// over it with its top left corner at `(x, y)`: the byte of `top` that
    /// lands there, or the byte that was there before.
    pub open spec fn replaced_byte(self, top: Image, x: int, y: int, px: int, py: int, c: int) -> u8 {
        if covers(top.width as int, top.height as int, x, y, px, py) {
            top.byte_at(px - x, py - y, c)
        } else {
            self.byte_at(px, py, c)
        }
    }

    /// Whether `after` is this image with `top` copied over it at `(x, y)`,
    /// the part of `top` outside this image cut off.
    pub open spec fn replaced_by(self, top: Image, x: int, y: int, after: Image) -> bool {
        &&& after.wf()
        &&& after.width == self.width
        &&& after.height == self.height
        &&& forall|px: int, py: int, c: int|
            0 <= px < self.width && 0 <= py < self.height && 0 <= c < 4 ==> #[trigger] after.byte_at(
                px,
                py,
                c,
            ) == self.replaced_byte(top, x, y, px, py, c)
    }
}

impl Bitmap {
    /// The buffer holds exactly the pixels of the rectangle.
    pub open spec fn wf(&self) -> bool {
        self@.wf()
    }

    /// An image of the given size with every pixel transparent black, or
    /// `None` where its buffer would exceed the address space.
    pub fn blank(width: usize, height: usize) -> (r: Option<Bitmap>)
        ensures
            match r {
                Some(b) => b.wf() && b.width == width && b.height == height && b@.is_blank(),
                None => width * height * 4 > usize::MAX,
            },
    {
        let pixels = match width.checked_mul(height) {
            Some(n) => n,
            None => {
                assert(0 <= width * height) by (nonlinear_arith)
                    requires
                        0 <= width,
                        0 <= height,
                ;
                return None;
            },
        };
        let len = match pixels.checked_mul(4) {
            Some(n) => n,
            None => {
                return None;
            },
        };
        let data = vec![0u8; len];
        Some(Bitmap { width, height, data })
    }

    /// The image of the given size over the given bytes, or `None` where the
    /// number of bytes is not that of `width * height` pixels.
    pub fn from_raw(width: usize, height: usize, data: Vec<u8>) -> (r: Option<Bitmap>)
        ensures
            match r {
                Some(b) => b.wf() && b.width == width && b.height == height && b.data@ == data@,
                None => data@.len() != width * height * 4,
            },
    {
        let given = data.len();
        let pixels = match width.checked_mul(height) {
            Some(n) => n,
            None => {
                assert(0 <= width * height) by (nonlinear_arith)
                    requires
                        0 <= width,
                        0 <= height,
                ;
                return None;
            },
        };
        let len = match pixels.checked_mul(4) {
            Some(n) => n,
            None => {
                return None;
            },
        };
        if given == len {
            Some(Bitmap { width, height, data })
        } else {
            None
        }
    }

    /// Reads pixel `(x, y)`.
    pub fn get_pixel(&self, x: usize, y: usize) -> (p: Pixel)
        requires
            self.wf(),
            x < self.width,
            y < self.height,
        ensures
            p == self@.pixel_at(x as int, y as int),
    {
        proof {
            lemma_pixel_offset_bounds(self.width as int, self.height as int, x as int, y as int);
            assert(self.data@.len() == self.data.len());
        }
        let i = (y * self.width + x) * 4;
        (self.data[i], self.data[i + 1], self.data[i + 2], self.data[i + 3])
    }

    /// The state of `replace` after `rows` full rows and `cols` pixels of the
    /// next row of `top` have been copied.
    spec fn copied_up_to(now: Image, before: Image, top: Image, x: int, y: int, rows: int, cols: int) -> bool {
        forall|px: int, py: int, c: int|
            0 <= px < now.width && 0 <= py < now.height && 0 <= c < 4 ==> #[trigger] now.byte_at(
                px,
                py,
                c,
            ) == if covers(top.width as int, top.height as int, x, y, px, py) && (py - y < rows || (
            py - y == rows && px - x < cols)) {
                top.byte_at(px - x, py - y, c)
            } else {
                before.byte_at(px, py, c)
            }
    }

    /// Copies `top` over this image with its top left corner at `(x, y)`.
    /// The part of `top` that falls outside this image is cut off; the size
    /// of this image does not change.
    pub fn replace(&mut self, top: &Bitmap, x: usize, y: usize)
        requires
            old(self).wf(),
            top.wf(),
        ensures
            old(self)@.replaced_by(top@, x as int, y as int, final(self)@),
    {
        let ghost before: Image = old(self)@;
        let width = self.width;
        proof {
            assert(self.data@.len() == self.data.len());
            assert(top.data@.len() == top.data.len());
        }
        let height = self.height;
        if x >= width || y >= height {
            return;
        }
        let cols = if top.width < width - x {
            top.width
        } else {
            width - x
        };
        let rows = if top.height < height - y {
            top.height
        } else {
            height - y
        };
        let mut r: usize = 0;
        while r < rows
            invariant
                before.wf(),
                top.wf(),
                self.wf(),
                self.data@.len() <= usize::MAX,
                top.data@.len() <= usize::MAX,
                self.width == width == before.width,
                self.height == height == before.height,
                x < width,
                y < height,
                cols <= top.width,
                cols <= width - x,
                cols == top.width || cols == width - x,
                rows <= top.height,
                rows <= height - y,
                r <= rows,
                Bitmap::copied_up_to(self@, before, top@, x as int, y as int, r as int, 0),
            decreases rows - r,
        {
            let mut k: usize = 0;
            while k < cols
                invariant
                    before.wf(),
                    top.wf(),
                    self.wf(),
                    self.data@.len() <= usize::MAX,
                    top.data@.len() <= usize::MAX,
                    self.width == width == before.width,
                    self.height == height == before.height,
                    x < width,
                    y < height,
                    cols <= top.width,
                    cols <= width - x,
                    rows <= top.height,
                    rows <= height - y,
                    r < rows,
                    k <= cols,
                    Bitmap::copied_up_to(self@, before, top@, x as int, y as int, r as int, k as int),
                decreases cols - k,
            {
                proof {
                    lemma_pixel_offset_bounds(
                        width as int,
                        height as int,
                        (x + k) as int,
                        (y + r) as int,
                    );
                    lemma_pixel_offset_bounds(
                        top.width as int,
                        top.height as int,
                        k as int,
                        r as int,
                    );
                }
                let dst = ((y + r) * width + (x + k)) * 4;
                let src = (r * top.width + k) * 4;
                let ghost prev: Image = self@;
                self.data.set(dst, top.data[src]);
                self.data.set(dst + 1, top.data[src + 1]);
                self.data.set(dst + 2, top.data[src + 2]);
                self.data.set(dst + 3, top.data[src + 3]);
                proof {
                    assert forall|px: int, py: int, c: int|
                        0 <= px < self.width && 0 <= py < self.height && 0 <= c < 4 implies (
                    #[trigger] self@.byte_at(px, py, c)) == if covers(
                        top.width as int,
                        top.height as int,
                        x as int,
                        y as int,
                        px,
                        py,
                    ) && (py - y < r || (py - y == r && px - x < k + 1)) {
                        top@.byte_at(px - x, py - y, c)
                    } else {
                        before.byte_at(px, py, c)
                    } by {
                        if px == x + k && py == y + r {
                        } else {
                            lemma_pixel_offset_disjoint(width as int, px, py, (x + k) as int, (y + r) as int);
                            lemma_pixel_offset_bounds(width as int, height as int, px, py);
                            assert(self@.byte_at(px, py, c) == prev.byte_at(px, py, c));
                        }
                    }
                }
                k += 1;
            }
            proof {
                assert forall|px: int, py: int, c: int|
                    0 <= px < self.width && 0 <= py < self.height && 0 <= c < 4 implies (
                #[trigger] self@.byte_at(px, py, c)) == if covers(
                    top.width as int,
                    top.height as int,
                    x as int,
                    y as int,
                    px,
                    py,
                ) && (py - y < r + 1 || (py - y == r + 1 && px - x < 0)) {
                    top@.byte_at(px - x, py - y, c)
                } else {
                    before.byte_at(px, py, c)
                } by {
                    // a covered pixel of this image has px - x < cols
                }
            }
            r += 1;
        }
    }
}

} // verus!
