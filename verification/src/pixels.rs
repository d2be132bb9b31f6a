//! Readback images: the bookkeeping between a GPU copy and the bytes a render test reads.
//!
//! A texture copied to a buffer arrives with every row padded to the copy alignment. What a
//! test wants is tightly packed straight-alpha sRGB RGBA bytes, four per pixel, row-major,
//! and a way to read one pixel back. Both halves are arithmetic on plain bytes, and both are
//! here; acquiring a device and mapping the buffer is the renderer's business.

use vstd::prelude::*;

verus! {

/// A texture-to-buffer copy starts every row on a multiple of this many bytes.
pub const COPY_ALIGNMENT: u32 = 256;

/// The bytes of one row of `width` pixels, four per pixel, rounded up to the copy alignment.
pub open spec fn padded_row(width: nat) -> nat {
    ((width * 4 + 255) / 256) * 256
}

/// The stride of a readback buffer for a target `width` pixels wide.
pub fn padded_bytes_per_row(width: u32) -> (stride: u32)
    requires
        padded_row(width as nat) <= u32::MAX,
    ensures
        stride == padded_row(width as nat),
        stride >= width * 4,
        stride % COPY_ALIGNMENT == 0,
{
    let unpadded = width * 4;
    let whole = unpadded / COPY_ALIGNMENT;
    let rows = if unpadded % COPY_ALIGNMENT == 0 {
        whole
    } else {
        whole + 1
    };
    rows * COPY_ALIGNMENT
}

/// The first `rows` rows of a padded buffer with `stride` bytes per row, each cut to its
/// first `row_bytes`, one after another.
pub open spec fn unpadded(padded: Seq<u8>, row_bytes: nat, rows: nat, stride: nat) -> Seq<u8>
    decreases rows,
{
    if rows == 0 {
        Seq::empty()
    } else {
        let start = (rows - 1) * stride;
        unpadded(padded, row_bytes, (rows - 1) as nat, stride) + padded.subrange(
            start as int,
            start + row_bytes,
        )
    }
}

/// Where pixel `(x, y)` starts in a packed image `width` pixels wide.
pub open spec fn pixel_offset(width: nat, x: nat, y: nat) -> int {
    ((y * width + x) * 4) as int
}

/// A readback image: tightly packed straight-alpha sRGB RGBA bytes.
#[derive(Clone, Debug, PartialEq, Eq)]
pub struct Pixels {
    data: Vec<u8>,
    width: u32,
    height: u32,
}

impl Pixels {
    /// Width in pixels.
    pub closed spec fn spec_width(&self) -> nat {
        self.width as nat
    }

    /// Height in pixels.
    pub closed spec fn spec_height(&self) -> nat {
        self.height as nat
    }

    /// The bytes, four per pixel, row-major, no padding.
    pub closed spec fn spec_bytes(&self) -> Seq<u8> {
        self.data@
    }

    /// Exactly four bytes for every pixel.
    pub closed spec fn wf(&self) -> bool {
        &&& self.data@.len() == self.width * self.height * 4
        &&& self.width * self.height * 4 <= usize::MAX
    }

    /// A well-formed image holds four bytes per pixel.
    pub proof fn lemma_packed(&self)
        requires
            self.wf(),
        ensures
            self.spec_bytes().len() == self.spec_width() * self.spec_height() * 4,
            self.spec_width() * self.spec_height() * 4 <= usize::MAX,
    {
    }

    /// Packs the first `height` rows of a readback buffer with `stride` bytes per row,
    /// keeping the first `width` pixels of each.
    pub fn from_padded(padded: &[u8], width: u32, height: u32, stride: u32) -> (pixels: Self)
        requires
            height == 0 || (height - 1) * stride + width * 4 <= padded@.len(),
            width * height * 4 <= usize::MAX,
        ensures
            pixels.wf(),
            pixels.spec_width() == width,
            pixels.spec_height() == height,
            pixels.spec_bytes() == unpadded(padded@, width as nat * 4, height as nat, stride as nat),
    {
        if height == 0 {
            proof {
                assert(unpadded(padded@, width as nat * 4, 0, stride as nat) =~= Seq::<u8>::empty());
            }
            return Pixels { data: Vec::new(), width, height };
        }
        proof {
            assert(width * 4 <= width * height * 4) by (nonlinear_arith)
                requires
                    height > 0,
            ;
        }
        let row_bytes = width as usize * 4;
        let available = padded.len();
        let mut data: Vec<u8> = Vec::new();
        let mut row: usize = 0;
        while row < height as usize
            invariant
                row <= height,
                height > 0,
                row_bytes == width * 4,
                available == padded@.len(),
                (height - 1) * stride + width * 4 <= padded@.len(),
                width * height * 4 <= usize::MAX,
                data@ == unpadded(padded@, row_bytes as nat, row as nat, stride as nat),
                data@.len() == row * row_bytes,
            decreases height - row,
        {
            proof {
                assert(row * stride <= (height - 1) * stride) by (nonlinear_arith)
                    requires
                        row < height,
                ;
                assert((row + 1) * row_bytes == row * row_bytes + row_bytes) by (nonlinear_arith);
            }
            assert(row * stride + row_bytes <= available);
            let start = row * stride as usize;
            let mut k: usize = 0;
            let ghost before = data@;
            while k < row_bytes
                invariant
                    k <= row_bytes,
                    available == padded@.len(),
                    start + row_bytes <= padded@.len(),
                    data@ == before + padded@.subrange(start as int, start + k),
                decreases row_bytes - k,
            {
                data.push(padded[start + k]);
                k = k + 1;
                proof {
                    assert(data@ =~= before + padded@.subrange(start as int, start + k));
                }
            }
            row = row + 1;
            proof {
                assert(((row - 1) as nat * stride as nat) == start);
                assert(data@ =~= unpadded(padded@, row_bytes as nat, row as nat, stride as nat));
            }
        }
        proof {
            assert(height * row_bytes == width * height * 4) by (nonlinear_arith)
                requires
                    row_bytes == width * 4,
            ;
        }
        Pixels { data, width, height }
    }

    /// Width in pixels.
    pub fn width(&self) -> (width: u32)
        ensures
            width == self.spec_width(),
    {
        self.width
    }

    /// Height in pixels.
    pub fn height(&self) -> (height: u32)
        ensures
            height == self.spec_height(),
    {
        self.height
    }

    /// Raw bytes, four per pixel, row-major, no padding.
    pub fn as_bytes(&self) -> (bytes: &[u8])
        ensures
            bytes@ == self.spec_bytes(),
    {
        self.data.as_slice()
    }

    /// The pixel at `(x, y)`, which must lie inside the image.
    pub fn at(&self, x: u32, y: u32) -> (pixel: [u8; 4])
        requires
            self.wf(),
            x < self.spec_width(),
            y < self.spec_height(),
        ensures
            pixel_offset(self.spec_width(), x as nat, y as nat) + 4 <= self.spec_bytes().len(),
            pixel@ == self.spec_bytes().subrange(
                pixel_offset(self.spec_width(), x as nat, y as nat),
                pixel_offset(self.spec_width(), x as nat, y as nat) + 4,
            ),
    {
        proof {
            assert((y * self.width + x) * 4 + 4 <= self.width * self.height * 4) by (nonlinear_arith)
                requires
                    x < self.width,
                    y < self.height,
            ;
            assert(y * self.width + x <= self.width * self.height) by (nonlinear_arith)
                requires
                    x < self.width,
                    y < self.height,
            ;
            assert(y * self.width <= self.width * self.height) by (nonlinear_arith)
                requires
                    y < self.height,
            ;
        }
        let i = (y as usize * self.width as usize + x as usize) * 4;
        let pixel = [self.data[i], self.data[i + 1], self.data[i + 2], self.data[i + 3]];
        proof {
            assert(pixel@ =~= self.data@.subrange(i as int, i + 4));
        }
        pixel
    }

    /// Whether the pixel at `(x, y)` is within `tolerance` of `expected` on every channel.
    ///
    /// Tolerance exists because an sRGB round trip and a driver's blending are not bit-exact
    /// across backends: one or two levels of drift is normal, ten is a bug.
    pub fn matches(&self, x: u32, y: u32, expected: [u8; 4], tolerance: u8) -> (close: bool)
        requires
            self.wf(),
            x < self.spec_width(),
            y < self.spec_height(),
        ensures
            close == forall|c: int|
                0 <= c < 4 ==> channel_distance(
                    self.spec_bytes()[pixel_offset(self.spec_width(), x as nat, y as nat) + c],
                    expected@[c],
                ) <= tolerance,
    {
        let actual = self.at(x, y);
        let mut c: usize = 0;
        while c < 4
            invariant
                c <= 4,
                pixel_offset(self.spec_width(), x as nat, y as nat) + 4 <= self.spec_bytes().len(),
                actual@ == self.spec_bytes().subrange(
                    pixel_offset(self.spec_width(), x as nat, y as nat),
                    pixel_offset(self.spec_width(), x as nat, y as nat) + 4,
                ),
                forall|d: int| 0 <= d < c ==> channel_distance(actual@[d], expected@[d]) <= tolerance,
            decreases 4 - c,
        {
            let a = actual[c];
            let e = expected[c];
            let distance = if a >= e {
                a - e
            } else {
                e - a
            };
            if distance > tolerance {
                proof {
                    let offset = pixel_offset(self.spec_width(), x as nat, y as nat);
                    assert(actual@[c as int] == self.spec_bytes()[offset + c]);
                    assert(channel_distance(self.spec_bytes()[offset + c], expected@[c as int]) > tolerance);
                }
                return false;
            }
            c = c + 1;
        }
        proof {
            let offset = pixel_offset(self.spec_width(), x as nat, y as nat);
            assert forall|d: int| 0 <= d < 4 implies channel_distance(self.spec_bytes()[offset + d], expected@[d]) <= tolerance by {
                assert(actual@[d] == self.spec_bytes()[offset + d]);
            }
        }
        true
    }
}

/// How far apart two channel values are.
pub open spec fn channel_distance(a: u8, b: u8) -> int {
    if a >= b {
        a - b
    } else {
        b - a
    }
}

// ---- a test texture ---------------------------------------------------------------------

/// Whether pixel `(x, y)` of a checkerboard with `cell`-pixel squares takes the first colour.
pub open spec fn dark_square(x: nat, y: nat, cell: nat) -> bool {
    ((x / cell) + (y / cell)) % 2 == 0
}

/// Byte `i` of a checkerboard `width` pixels wide: channel `i % 4` of `a` on the dark
/// squares and of `b` on the others.
pub open spec fn checker_byte(width: nat, cell: nat, a: Seq<u8>, b: Seq<u8>, i: int) -> u8 {
    let p = i / 4;
    if dark_square((p % width as int) as nat, (p / width as int) as nat, cell) {
        a[i % 4]
    } else {
        b[i % 4]
    }
}

/// A checkerboard of two colours, `width` by `height` pixels, as RGBA bytes. A cell size of
/// zero counts as one.
pub open spec fn checkerboard_bytes(width: nat, height: nat, cell: nat, a: Seq<u8>, b: Seq<u8>) -> Seq<u8> {
    let cell = if cell == 0 {
        1
    } else {
        cell
    };
    Seq::new(width * height * 4, |i: int| checker_byte(width, cell, a, b, i))
}

/// The four bytes of pixel `(x, y)` are the colour of its square.
proof fn lemma_pixel_bytes(width: nat, cell: nat, a: Seq<u8>, b: Seq<u8>, x: nat, y: nat)
    requires
        x < width,
    ensures
        forall|c: int|
            0 <= c < 4 ==> #[trigger] checker_byte(width, cell, a, b, (y * width + x) * 4 + c) == if dark_square(x, y, cell) {
                a[c]
            } else {
                b[c]
            },
{
    let p = (y * width + x) as int;
    vstd::arithmetic::div_mod::lemma_fundamental_div_mod_converse(p, width as int, y as int, x as int);
    assert forall|c: int| 0 <= c < 4 implies #[trigger] checker_byte(width, cell, a, b, (y * width + x) * 4 + c) == if dark_square(x, y, cell) {
        a[c]
    } else {
        b[c]
    } by {
        vstd::arithmetic::div_mod::lemma_fundamental_div_mod_converse(p * 4 + c, 4, p, c);
    }
}

/// A checkerboard of two colours, as straight-alpha sRGB RGBA bytes.
///
/// A test texture: it makes both a sampler's addressing and a destination rectangle's
/// orientation visible in a readback, which a flat colour would not.
pub fn checkerboard(width: u32, height: u32, cell: u32, a: [u8; 4], b: [u8; 4]) -> (pixels: Vec<u8>)
    requires
        width * height * 4 <= usize::MAX,
    ensures
        pixels@ == checkerboard_bytes(width as nat, height as nat, cell as nat, a@, b@),
{
    let ghost requested = cell;
    let cell = if cell == 0 {
        1
    } else {
        cell
    };
    let ghost total = width * height * 4;
    let mut pixels: Vec<u8> = Vec::new();
    let mut y: u32 = 0;
    while y < height
        invariant
            y <= height,
            cell >= 1,
            total == width * height * 4,
            total <= usize::MAX,
            pixels@.len() == y * width * 4,
            forall|j: int| 0 <= j < pixels@.len() ==> pixels@[j] == checker_byte(width as nat, cell as nat, a@, b@, j),
        decreases height - y,
    {
        proof {
            assert((y + 1) * width * 4 <= total) by (nonlinear_arith)
                requires
                    y < height,
                    total == width * height * 4,
            ;
            assert((y + 1) * width * 4 == y * width * 4 + width * 4) by (nonlinear_arith);
        }
        let ghost row_end = (y + 1) * width * 4;
        let mut x: u32 = 0;
        while x < width
            invariant
                x <= width,
                cell >= 1,
                row_end <= total,
                total <= usize::MAX,
                pixels@.len() + (width - x) * 4 == row_end,
                pixels@.len() == (y * width + x) * 4,
                forall|j: int| 0 <= j < pixels@.len() ==> pixels@[j] == checker_byte(width as nat, cell as nat, a@, b@, j),
            decreases width - x,
        {
            let dark = ((x / cell) as u64 + (y / cell) as u64) % 2 == 0;
            let colour = if dark {
                a
            } else {
                b
            };
            let ghost before = pixels@;
            pixels.push(colour[0]);
            pixels.push(colour[1]);
            pixels.push(colour[2]);
            pixels.push(colour[3]);
            proof {
                lemma_pixel_bytes(width as nat, cell as nat, a@, b@, x as nat, y as nat);
                assert(dark == dark_square(x as nat, y as nat, cell as nat));
                assert forall|j: int| 0 <= j < pixels@.len() implies pixels@[j] == checker_byte(width as nat, cell as nat, a@, b@, j) by {
                    if j >= before.len() {
                        let c = j - before.len();
                        assert(j == (y as nat * width as nat + x as nat) * 4 + c);
                        assert(pixels@[j] == colour@[c]);
                        assert(checker_byte(width as nat, cell as nat, a@, b@, (y as nat * width as nat + x as nat) * 4 + c) == if dark_square(x as nat, y as nat, cell as nat) {
                            a@[c]
                        } else {
                            b@[c]
                        });
                    } else {
                        assert(pixels@[j] == before[j]);
                    }
                }
                assert(pixels@.len() == (y * width + x + 1) * 4);
            }
            x = x + 1;
        }
        y = y + 1;
        proof {
            assert(((y - 1) * width + width) * 4 == y * width * 4) by (nonlinear_arith);
        }
    }
    proof {
        assert(height * width * 4 == total) by (nonlinear_arith)
            requires
                total == width * height * 4,
        ;
        assert(pixels@ =~= checkerboard_bytes(width as nat, height as nat, requested as nat, a@, b@));
    }
    pixels
}

} // verus!
