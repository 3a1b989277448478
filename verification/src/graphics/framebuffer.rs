use vstd::prelude::*;
use crate::io::window::Window;
use crate::shm::{USER_SHM_BASE, SHM_SLOT_SIZE, shm_address, shm_id_in_range};

verus! {

/// The pixels of a window: `width * height` colours, row after row, at
/// address `ptr`.  The drawing functions take those pixels as a slice.
#[derive(Clone, Copy, PartialEq, Eq, Debug)]
pub struct WindowFrameBuffer {
    pub ptr: u64,
    pub width: usize,
    pub height: usize,
}

/// The index of pixel `(x, y)` in a buffer `w` pixels wide.
pub open spec fn pixel_index(w: int, x: int, y: int) -> int {
    y * w + x
}

/// `new` is `old` with every pixel `(x, y)` of the `w` by `h` picture that is
/// in `pts` set to `color`, and nothing else changed.
pub open spec fn drawn(old: Seq<u32>, new: Seq<u32>, w: int, h: int, pts: Set<(int, int)>, color: u32) -> bool {
    &&& new.len() == old.len()
    &&& forall|x: int, y: int|
        0 <= x < w && 0 <= y < h ==> #[trigger] new[pixel_index(w, x, y)] == if pts.contains((x, y)) {
            color
        } else {
            old[pixel_index(w, x, y)]
        }
    &&& forall|i: int| w * h <= i < old.len() ==> #[trigger] new[i] == old[i]
}

/// Each pixel of the picture has its own index, inside the picture.
pub proof fn lemma_pixel_index(w: int, h: int, x: int, y: int, x2: int, y2: int)
    requires
        0 <= x < w,
        0 <= y < h,
        0 <= x2 < w,
        0 <= y2 < h,
    ensures
        0 <= pixel_index(w, x, y) < w * h,
        pixel_index(w, x, y) == pixel_index(w, x2, y2) ==> x == x2 && y == y2,
{
    assert(0 <= y * w + x < w * h) by (nonlinear_arith)
        requires
            0 <= x < w,
            0 <= y < h,
    ;
    if y < y2 {
        assert(y * w + x < y2 * w + x2) by (nonlinear_arith)
            requires
                0 <= x < w,
                0 <= x2,
                y < y2,
        ;
    } else if y2 < y {
        assert(y2 * w + x2 < y * w + x) by (nonlinear_arith)
            requires
                0 <= x2 < w,
                0 <= x,
                y2 < y,
        ;
    }
}

/// Drawing nothing leaves the picture as it is.
pub proof fn lemma_drawn_nothing(s: Seq<u32>, w: int, h: int, color: u32)
    ensures
        drawn(s, s, w, h, Set::empty(), color),
{
}

/// Drawing one set and then another draws their union.
pub proof fn lemma_drawn_compose(
    a: Seq<u32>,
    b: Seq<u32>,
    c: Seq<u32>,
    w: int,
    h: int,
    s: Set<(int, int)>,
    t: Set<(int, int)>,
    color: u32,
)
    requires
        drawn(a, b, w, h, s, color),
        drawn(b, c, w, h, t, color),
    ensures
        drawn(a, c, w, h, s.union(t), color),
{
    assert forall|x: int, y: int| 0 <= x < w && 0 <= y < h implies #[trigger] c[pixel_index(w, x, y)] == if s.union(t).contains((x, y)) {
        color
    } else {
        a[pixel_index(w, x, y)]
    } by {
        assert(b[pixel_index(w, x, y)] == if s.contains((x, y)) { color } else { a[pixel_index(w, x, y)] });
    }
}

impl WindowFrameBuffer {
    /// The pixel slice holds the whole picture, and the picture is no wider
    /// or taller than a signed size allows.
    pub open spec fn fits(&self, pixels: Seq<u32>) -> bool {
        &&& self.width * self.height <= pixels.len()
        &&& self.width <= isize::MAX
        &&& self.height <= isize::MAX
    }

    /// The frame buffer of a window: its pixels live in the window's
    /// shared-memory slot.
    pub fn from_window(window: &Window) -> (r: WindowFrameBuffer)
        requires
            shm_id_in_range(window.shm_id),
        ensures
            r.ptr == shm_address(window.shm_id),
            r.width == window.width,
            r.height == window.height,
    {
        let ptr = USER_SHM_BASE + window.shm_id * SHM_SLOT_SIZE;
        WindowFrameBuffer { ptr, width: window.width, height: window.height }
    }

    /// Sets pixel `(x, y)` to `color`; pixels outside the picture are ignored.
    pub fn put_pixel(&self, pixels: &mut [u32], x: usize, y: usize, color: u32)
        requires
            self.fits(old(pixels)@),
        ensures
            drawn(old(pixels)@, final(pixels)@, self.width as int, self.height as int, set![(x as int, y as int)], color),
    {
        let _plen = pixels.len();
        if x >= self.width || y >= self.height {
            return;
        }
        proof {
            lemma_pixel_index(self.width as int, self.height as int, x as int, y as int, x as int, y as int);
        }
        let idx = y * self.width + x;
        if idx >= self.width * self.height {
            return;
        }
        pixels[idx] = color;
        proof {
            let w = self.width as int;
            let h = self.height as int;
            assert forall|a: int, b: int| 0 <= a < w && 0 <= b < h implies #[trigger] pixels@[pixel_index(w, a, b)] == if set![(x as int, y as int)].contains((a, b)) {
                color
            } else {
                old(pixels)@[pixel_index(w, a, b)]
            } by {
                lemma_pixel_index(w, h, a, b, x as int, y as int);
            }
        }
    }

    /// Sets the `len` pixels from `(x, y)` rightwards to `color`, clipped at
    /// the right edge; nothing when `(x, y)` lies outside the picture.
    pub fn fill_span(&self, pixels: &mut [u32], x: usize, y: usize, len: usize, color: u32)
        requires
            self.fits(old(pixels)@),
        ensures
            drawn(
                old(pixels)@,
                final(pixels)@,
                self.width as int,
                self.height as int,
                Set::new(|p: (int, int)| p.1 == y && x <= p.0 < x + len),
                color,
            ),
    {
        let ghost w = self.width as int;
        let ghost h = self.height as int;
        let ghost pts = Set::new(|p: (int, int)| p.1 == y && x <= p.0 < x + len);
        let _plen = pixels.len();
        if y >= self.height || x >= self.width || len == 0 {
            proof {
                assert forall|a: int, b: int| 0 <= a < w && 0 <= b < h implies !pts.contains((a, b)) by {}
            }
            return;
        }
        let len = if len < self.width - x { len } else { self.width - x };
        proof {
            lemma_pixel_index(w, h, x as int, y as int, x as int, y as int);
            lemma_pixel_index(w, h, (x + len - 1) as int, y as int, x as int, y as int);
        }
        let start = y * self.width + x;
        let mut k: usize = 0;
        while k < len
            invariant
                self.fits(old(pixels)@),
                w == self.width,
                h == self.height,
                y < h,
                x < w,
                x + len <= w,
                start == pixel_index(w, x as int, y as int),
                start + len <= w * h,
                w * h <= old(pixels)@.len(),
                old(pixels)@.len() <= usize::MAX,
                0 <= k <= len,
                pixels@.len() == old(pixels)@.len(),
                forall|i: int| 0 <= i < pixels@.len() ==> #[trigger] pixels@[i] == if start <= i < start + k {
                    color
                } else {
                    old(pixels)@[i]
                },
            decreases len - k,
        {
            pixels[start + k] = color;
            k = k + 1;
        }
        proof {
            assert forall|a: int, b: int| 0 <= a < w && 0 <= b < h implies #[trigger] pixels@[pixel_index(w, a, b)] == if pts.contains((a, b)) {
                color
            } else {
                old(pixels)@[pixel_index(w, a, b)]
            } by {
                lemma_pixel_index(w, h, a, b, x as int, y as int);
                if b == y {
                    assert(pixel_index(w, a, b) == start + (a - x));
                } else if b < y {
                    assert(pixel_index(w, a, b) < start) by (nonlinear_arith)
                        requires 0 <= a < w, b < y, start == y * w + x, 0 <= x;
                } else {
                    assert(pixel_index(w, a, b) >= start + len) by (nonlinear_arith)
                        requires 0 <= a, b > y, start == y * w + x, x + len <= w;
                }
            }
        }
    }

    /// Sets every pixel of the picture to `color`.
    pub fn clear(&self, pixels: &mut [u32], color: u32)
        requires
            self.fits(old(pixels)@),
        ensures
            drawn(
                old(pixels)@,
                final(pixels)@,
                self.width as int,
                self.height as int,
                Set::new(|p: (int, int)| true),
                color,
            ),
    {
        let ghost w = self.width as int;
        let ghost h = self.height as int;
        let _plen = pixels.len();
        let n = self.width * self.height;
        let mut i: usize = 0;
        while i < n
            invariant
                n == w * h,
                n <= old(pixels)@.len(),
                0 <= i <= n,
                pixels@.len() == old(pixels)@.len(),
                forall|k: int| 0 <= k < pixels@.len() ==> #[trigger] pixels@[k] == if k < i { color } else { old(pixels)@[k] },
            decreases n - i,
        {
            pixels[i] = color;
            i = i + 1;
        }
        proof {
            assert forall|a: int, b: int| 0 <= a < w && 0 <= b < h implies #[trigger] pixels@[pixel_index(w, a, b)] == color by {
                lemma_pixel_index(w, h, a, b, a, b);
            }
        }
    }
}

} // verus!
