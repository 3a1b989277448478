use vstd::prelude::*;
use crate::io::text::{
    words, split_whitespace, parse_isize, parse_unsigned, parse_signed_spec, parse_unsigned_spec,
    starts_with, has_prefix, copy_range, lemma_words_from_bounds,
};
use crate::format::{num_text, signed_text, number_text, decimal_text};
use crate::graphics::framebuffer::{pixel_index, lemma_pixel_index};

verus! {

/// A window that the window manager granted: its size, its place on the
/// screen and the shared-memory slot that holds its pixels.
#[derive(Clone, Copy, PartialEq, Eq, Debug)]
pub struct Window {
    pub width: usize,
    pub height: usize,
    pub x: usize,
    pub y: usize,
    pub shm_id: u64,
}

/// The word with which the window manager answers a request for a private
/// port.
pub open spec fn ack_priv_ipc() -> Seq<char> {
    seq!['a', 'c', 'k', '_', 'r', 'e', 'q', 'u', 'e', 's', 't', '_', 'p', 'r', 'i', 'v', '_', 'i', 'p', 'c']
}

/// The word with which the window manager answers a request for a window
/// buffer.
pub open spec fn ack_window_buf() -> Seq<char> {
    seq!['a', 'c', 'k', '_', 'r', 'e', 'q', 'u', 'e', 's', 't', '_', 'w', 'i', 'n', 'd', 'o', 'w', '_', 'b', 'u', 'f']
}

/// The `k`-th word of `msg`.
pub open spec fn word(msg: Seq<char>, k: int) -> Seq<char> {
    msg.subrange(words(msg)[k].0, words(msg)[k].1)
}

/// A word read as an `isize`, or `default` when it is not one.
pub open spec fn isize_or(t: Seq<char>, default: int) -> int {
    match parse_signed_spec(t, isize::MAX as int) {
        Some(v) => v,
        None => default,
    }
}

/// A word read as an unsigned number up to `max`, or 0 when it is not one.
pub open spec fn unsigned_or_zero(t: Seq<char>, max: int) -> int {
    match parse_unsigned_spec(t, max) {
        Some(v) => v,
        None => 0,
    }
}

/// What a message on the private reply port means while a private port is
/// requested.
pub enum PrivIpcReply {
    /// Not the answer for this process: keep waiting.
    Ignore,
    /// The private port that the window manager opened for this process.
    Accept { name: Vec<char> },
    /// An answer with too few words (the request stops there).
    Malformed,
}

/// What a message on the private port means while a window buffer is
/// requested.
pub enum WindowBufReply {
    /// Not the answer: keep waiting.
    Ignore,
    /// The window that was granted, and the name of its shared memory.
    Granted { window: Window, shm_name: Vec<char> },
    /// An answer with too few words (the request stops there).
    Malformed,
}

/// Reads a message that may answer the request for a private port: it must
/// start with `ack_request_priv_ipc`, its second word must name process
/// `pid` (a word that is no number counts as -1), and its third word is the
/// name of the port.
pub fn priv_ipc_reply(msg: &[char], pid: isize) -> (r: PrivIpcReply)
    ensures
        !starts_with(msg@, ack_priv_ipc()) ==> r is Ignore,
        starts_with(msg@, ack_priv_ipc()) && words(msg@).len() < 2 ==> r is Malformed,
        starts_with(msg@, ack_priv_ipc()) && words(msg@).len() >= 2 && isize_or(word(msg@, 1), -1) != pid
            ==> r is Ignore,
        starts_with(msg@, ack_priv_ipc()) && words(msg@).len() >= 2 && isize_or(word(msg@, 1), -1) == pid
            && words(msg@).len() < 3 ==> r is Malformed,
        starts_with(msg@, ack_priv_ipc()) && words(msg@).len() >= 3 && isize_or(word(msg@, 1), -1) == pid
            ==> (r matches PrivIpcReply::Accept { name } && name@ == word(msg@, 2)),
{
    let prefix = ['a', 'c', 'k', '_', 'r', 'e', 'q', 'u', 'e', 's', 't', '_', 'p', 'r', 'i', 'v', '_', 'i', 'p', 'c'];
    proof {
        assert(prefix@ == ack_priv_ipc());
    }
    if !has_prefix(msg, &prefix) {
        return PrivIpcReply::Ignore;
    }
    let parts = split_whitespace(msg);
    proof {
        lemma_words_from_bounds(msg@, 0);
    }
    if parts.len() < 2 {
        return PrivIpcReply::Malformed;
    }
    let (a, b) = parts[1];
    let parsed = match parse_isize(&msg[a..b]) {
        Some(v) => v,
        None => -1,
    };
    proof {
        assert(msg@.subrange(a as int, b as int) == word(msg@, 1));
    }
    if parsed != pid {
        return PrivIpcReply::Ignore;
    }
    if parts.len() < 3 {
        return PrivIpcReply::Malformed;
    }
    let (c, d) = parts[2];
    PrivIpcReply::Accept { name: copy_range(msg, c, d) }
}

/// A word of `msg` read as an unsigned number up to `max`, or 0.
fn word_number(msg: &[char], range: (usize, usize), max: u64) -> (r: u64)
    requires
        range.0 <= range.1 <= msg@.len(),
    ensures
        r == unsigned_or_zero(msg@.subrange(range.0 as int, range.1 as int), max as int),
{
    let (a, b) = range;
    match parse_unsigned(&msg[a..b], max) {
        Some(v) => v,
        None => 0,
    }
}

/// Reads a message that may answer the request for a window buffer: it must
/// start with `ack_request_window_buf`; then come the width, height, x and
/// y of the window (a word that is no number counts as 0), the name of its
/// shared memory and the shared-memory slot.
pub fn window_buf_reply(msg: &[char]) -> (r: WindowBufReply)
    ensures
        !starts_with(msg@, ack_window_buf()) ==> r is Ignore,
        starts_with(msg@, ack_window_buf()) && words(msg@).len() < 7 ==> r is Malformed,
        starts_with(msg@, ack_window_buf()) && words(msg@).len() >= 7 ==> (r matches WindowBufReply::Granted {
            window,
            shm_name,
        } && window.width == unsigned_or_zero(word(msg@, 1), usize::MAX as int) && window.height
            == unsigned_or_zero(word(msg@, 2), usize::MAX as int) && window.x == unsigned_or_zero(
            word(msg@, 3),
            usize::MAX as int,
        ) && window.y == unsigned_or_zero(word(msg@, 4), usize::MAX as int) && shm_name@ == word(msg@, 5)
            && window.shm_id == unsigned_or_zero(word(msg@, 6), u64::MAX as int)),
{
    let prefix = ['a', 'c', 'k', '_', 'r', 'e', 'q', 'u', 'e', 's', 't', '_', 'w', 'i', 'n', 'd', 'o', 'w', '_', 'b', 'u', 'f'];
    proof {
        assert(prefix@ == ack_window_buf());
    }
    if !has_prefix(msg, &prefix) {
        return WindowBufReply::Ignore;
    }
    let parts = split_whitespace(msg);
    proof {
        lemma_words_from_bounds(msg@, 0);
    }
    if parts.len() < 7 {
        return WindowBufReply::Malformed;
    }
    let width = word_number(msg, parts[1], usize::MAX as u64) as usize;
    let height = word_number(msg, parts[2], usize::MAX as u64) as usize;
    let x = word_number(msg, parts[3], usize::MAX as u64) as usize;
    let y = word_number(msg, parts[4], usize::MAX as u64) as usize;
    let (a, b) = parts[5];
    let shm_name = copy_range(msg, a, b);
    let shm_id = word_number(msg, parts[6], u64::MAX);
    WindowBufReply::Granted { window: Window { width, height, x, y, shm_id }, shm_name }
}

/// The text `request_window_buf ` that starts a request for a window buffer.
pub open spec fn request_window_buf_prefix() -> Seq<u8> {
    seq![114u8, 101u8, 113u8, 117u8, 101u8, 115u8, 116u8, 95u8, 119u8, 105u8, 110u8, 100u8, 111u8, 119u8, 95u8, 98u8, 117u8, 102u8, 32u8]
}

/// The request for a window buffer of the given size.
pub fn request_window_buf_message(width: usize, height: usize) -> (r: Vec<u8>)
    ensures
        r@ == request_window_buf_prefix() + num_text(width as nat, 10, false) + seq![32u8] + num_text(
            height as nat,
            10,
            false,
        ),
{
    let prefix: [u8; 19] = [114u8, 101u8, 113u8, 117u8, 101u8, 115u8, 116u8, 95u8, 119u8, 105u8, 110u8, 100u8, 111u8, 119u8, 95u8, 98u8, 117u8, 102u8, 32u8];
    let mut out: Vec<u8> = Vec::new();
    let mut i: usize = 0;
    while i < 19
        invariant
            0 <= i <= 19,
            prefix@ == request_window_buf_prefix(),
            out@ == prefix@.take(i as int),
        decreases 19 - i,
    {
        out.push(prefix[i]);
        i = i + 1;
        proof {
            assert(out@ =~= prefix@.take(i as int));
        }
    }
    proof {
        assert(prefix@.take(19 as int) =~= prefix@);
    }
    let mut w = number_text(width as u64, 10, false);
    out.append(&mut w);
    out.push(32);
    let mut h = number_text(height as u64, 10, false);
    out.append(&mut h);
    out
}

/// The name of the port on which the window manager answers process `pid`:
/// `wm_priv_` and the process id.
pub fn priv_port_name(pid: isize) -> (r: Vec<u8>)
    ensures
        r@ == seq![119u8, 109u8, 95u8, 112u8, 114u8, 105u8, 118u8, 95u8] + signed_text(pid as int, None),
{
    let mut out: Vec<u8> = Vec::new();
    out.push(119);
    out.push(109);
    out.push(95);
    out.push(112);
    out.push(114);
    out.push(105);
    out.push(118);
    out.push(95);
    let mut digits = decimal_text(pid as i64);
    out.append(&mut digits);
    out
}

/// The size of the shared memory for a window: four bytes per pixel and one
/// more; `None` where that does not fit in a `usize`.
pub fn window_shm_size(width: usize, height: usize) -> (r: Option<u64>)
    ensures
        width * height * 4 + 1 <= usize::MAX ==> r == Some((width * height * 4 + 1) as u64),
        width * height * 4 + 1 > usize::MAX ==> r is None,
{
    match width.checked_mul(height) {
        Some(area) => match area.checked_mul(4) {
            Some(bytes) => match bytes.checked_add(1) {
                Some(total) => Some(total as u64),
                None => None,
            },
            None => {
                proof {
                    assert(width * height * 4 > usize::MAX);
                }
                None
            },
        },
        None => {
            proof {
                assert(width * height * 4 + 1 > usize::MAX) by (nonlinear_arith)
                    requires width * height > usize::MAX;
            }
            None
        },
    }
}

/// The pixel of the source picture that window pixel `(wx, wy)` shows:
/// nearest-neighbour scaling from `sw` by `sh` to `ww` by `wh`.
pub open spec fn source_index(wx: int, wy: int, sw: int, sh: int, ww: int, wh: int) -> int {
    (wy * sh / wh) * sw + wx * sw / ww
}

/// The scaled copy reads inside the source buffer and writes inside the
/// window buffer, and its products fit in a `usize`.
pub open spec fn scale_in_range(src_len: int, sw: int, sh: int, dest_len: int, ww: int, wh: int) -> bool {
    &&& ww * wh <= dest_len
    &&& dest_len <= usize::MAX
    &&& (ww > 0 && wh > 0) ==> {
        &&& (ww - 1) * sw <= usize::MAX
        &&& (wh - 1) * sh <= usize::MAX
        &&& source_index(ww - 1, wh - 1, sw, sh, ww, wh) < src_len
    }
}

/// The window picture after the scaled copy: every window pixel holds its
/// source pixel, and the rest of the buffer is unchanged.
pub open spec fn scaled(src: Seq<u32>, old: Seq<u32>, new: Seq<u32>, sw: int, sh: int, ww: int, wh: int) -> bool {
    &&& new.len() == old.len()
    &&& forall|x: int, y: int|
        0 <= x < ww && 0 <= y < wh ==> #[trigger] new[pixel_index(ww, x, y)] == src[source_index(x, y, sw, sh, ww, wh)]
    &&& forall|i: int| ww * wh <= i < old.len() ==> #[trigger] new[i] == old[i]
}

/// Scaling a picture to a window of the same size copies every pixel to the
/// same place.
pub proof fn lemma_scale_same_size(x: int, y: int, w: int, h: int)
    requires
        0 <= x < w,
        0 <= y < h,
    ensures
        source_index(x, y, w, h, w, h) == pixel_index(w, x, y),
{
    vstd::arithmetic::div_mod::lemma_div_by_multiple(y, h);
    vstd::arithmetic::div_mod::lemma_div_by_multiple(x, w);
    assert(y * h == h * y) by (nonlinear_arith);
    assert(x * w == w * x) by (nonlinear_arith);
}

/// The source pixel of any window pixel lies at or before that of the last
/// window pixel.
proof fn lemma_source_index_bound(wx: int, wy: int, sw: int, sh: int, ww: int, wh: int)
    requires
        0 <= wx < ww,
        0 <= wy < wh,
        sw >= 0,
        sh >= 0,
    ensures
        0 <= wx * sw / ww <= (ww - 1) * sw / ww,
        0 <= wy * sh / wh <= (wh - 1) * sh / wh,
        0 <= source_index(wx, wy, sw, sh, ww, wh) <= source_index(ww - 1, wh - 1, sw, sh, ww, wh),
        wx * sw <= (ww - 1) * sw,
        wy * sh <= (wh - 1) * sh,
{
    assert(0 <= wx * sw <= (ww - 1) * sw) by (nonlinear_arith)
        requires 0 <= wx <= ww - 1, sw >= 0;
    assert(0 <= wy * sh <= (wh - 1) * sh) by (nonlinear_arith)
        requires 0 <= wy <= wh - 1, sh >= 0;
    vstd::arithmetic::div_mod::lemma_div_is_ordered(wx * sw, (ww - 1) * sw, ww);
    vstd::arithmetic::div_mod::lemma_div_is_ordered(wy * sh, (wh - 1) * sh, wh);
    vstd::arithmetic::div_mod::lemma_div_pos_is_pos(wx * sw, ww);
    vstd::arithmetic::div_mod::lemma_div_pos_is_pos(wy * sh, wh);
    let a = wy * sh / wh;
    let b = (wh - 1) * sh / wh;
    assert(a * sw <= b * sw) by (nonlinear_arith)
        requires 0 <= a <= b, sw >= 0;
    assert(0 <= a * sw) by (nonlinear_arith)
        requires 0 <= a, sw >= 0;
}

/// Copies a `src_width` by `src_height` picture into a `window_width` by
/// `window_height` window buffer, scaled to the window by picking the nearest
/// source pixel.
pub fn scale_to_window(
    buffer: &[u32],
    src_width: usize,
    src_height: usize,
    dest: &mut [u32],
    window_width: usize,
    window_height: usize,
)
    requires
        scale_in_range(buffer@.len() as int, src_width as int, src_height as int, old(dest)@.len() as int,
            window_width as int, window_height as int),
    ensures
        scaled(buffer@, old(dest)@, final(dest)@, src_width as int, src_height as int, window_width as int,
            window_height as int),
{
    let ghost sw = src_width as int;
    let ghost sh = src_height as int;
    let ghost ww = window_width as int;
    let ghost wh = window_height as int;
    let _blen = buffer.len();
    let mut wy: usize = 0;
    while wy < window_height
        invariant
            scale_in_range(buffer@.len() as int, sw, sh, old(dest)@.len() as int, ww, wh),
            sw == src_width,
            sh == src_height,
            ww == window_width,
            wh == window_height,
            buffer@.len() <= usize::MAX,
            dest@.len() == old(dest)@.len(),
            0 <= wy <= wh,
            forall|x: int, y: int|
                0 <= x < ww && 0 <= y < wy ==> #[trigger] dest@[pixel_index(ww, x, y)] == buffer@[source_index(x, y, sw, sh, ww, wh)],
            forall|i: int| wy * ww <= i < dest@.len() ==> #[trigger] dest@[i] == old(dest)@[i],
        decreases wh - wy,
    {
        let mut wx: usize = 0;
        while wx < window_width
            invariant
                scale_in_range(buffer@.len() as int, sw, sh, old(dest)@.len() as int, ww, wh),
                sw == src_width,
                sh == src_height,
                ww == window_width,
                wh == window_height,
                buffer@.len() <= usize::MAX,
                dest@.len() == old(dest)@.len(),
                0 <= wy < wh,
                0 <= wx <= ww,
                forall|x: int, y: int|
                    0 <= x < ww && 0 <= y < wy ==> #[trigger] dest@[pixel_index(ww, x, y)] == buffer@[source_index(x, y, sw, sh, ww, wh)],
                forall|x: int| 0 <= x < wx ==> #[trigger] dest@[pixel_index(ww, x, wy as int)] == buffer@[source_index(x, wy as int, sw, sh, ww, wh)],
                forall|i: int| wy * ww + wx <= i < dest@.len() ==> #[trigger] dest@[i] == old(dest)@[i],
            decreases ww - wx,
        {
            proof {
                lemma_source_index_bound(wx as int, wy as int, sw, sh, ww, wh);
                lemma_pixel_index(ww, wh, wx as int, wy as int, wx as int, wy as int);
            }
            let src_x = wx * src_width / window_width;
            let src_y = wy * src_height / window_height;
            proof {
                assert(src_y == wy * sh / wh);
                assert(src_x == wx * sw / ww);
                assert(src_y * src_width + src_x == source_index(wx as int, wy as int, sw, sh, ww, wh));
            }
            let src_pixel = buffer[src_y * src_width + src_x];
            let ghost before = dest@;
            dest[wy * window_width + wx] = src_pixel;
            proof {
                assert forall|x: int, y: int|
                    0 <= x < ww && 0 <= y < wy implies #[trigger] dest@[pixel_index(ww, x, y)] == buffer@[source_index(x, y, sw, sh, ww, wh)] by {
                    lemma_pixel_index(ww, wh, x, y, wx as int, wy as int);
                }
                assert forall|x: int| 0 <= x < wx + 1 implies #[trigger] dest@[pixel_index(ww, x, wy as int)] == buffer@[source_index(x, wy as int, sw, sh, ww, wh)] by {
                    lemma_pixel_index(ww, wh, x, wy as int, wx as int, wy as int);
                }
            }
            wx = wx + 1;
        }
        proof {
            assert forall|x: int, y: int|
                0 <= x < ww && 0 <= y < wy + 1 implies #[trigger] dest@[pixel_index(ww, x, y)] == buffer@[source_index(x, y, sw, sh, ww, wh)] by {
                if y == wy {
                    assert(dest@[pixel_index(ww, x, wy as int)] == buffer@[source_index(x, wy as int, sw, sh, ww, wh)]);
                }
            }
            assert((wy + 1) * ww == wy * ww + ww) by (nonlinear_arith);
        }
        wy = wy + 1;
    }
    proof {
        assert(wh * ww == ww * wh) by (nonlinear_arith);
    }
}

/// How many source pixels a scaled copy reads (one past the source pixel of
/// the last window pixel, none for an empty window) and how many window
/// pixels it writes; `None` where one of the products does not fit in a
/// `usize`.
pub fn scale_extent(src_width: usize, src_height: usize, window_width: usize, window_height: usize) -> (r: Option<(
    usize,
    usize,
)>)
    ensures
        r is None <==> {
            ||| window_width * window_height > usize::MAX
            ||| (window_width > 0 && window_height > 0 && {
                ||| (window_width - 1) * src_width > usize::MAX
                ||| (window_height - 1) * src_height > usize::MAX
                ||| source_index(window_width - 1, window_height - 1, src_width as int, src_height as int,
                    window_width as int, window_height as int) + 1 > usize::MAX
            })
        },
        r matches Some((src_len, dest_len)) ==> {
            &&& dest_len == window_width * window_height
            &&& src_len == if window_width > 0 && window_height > 0 {
                source_index(window_width - 1, window_height - 1, src_width as int, src_height as int,
                    window_width as int, window_height as int) + 1
            } else {
                0
            }
            &&& scale_in_range(src_len as int, src_width as int, src_height as int, dest_len as int,
                window_width as int, window_height as int)
        },
{
    let dest_len = match window_width.checked_mul(window_height) {
        Some(n) => n,
        None => return None,
    };
    if window_width == 0 || window_height == 0 {
        return Some((0, dest_len));
    }
    let last_x = match (window_width - 1).checked_mul(src_width) {
        Some(n) => n,
        None => return None,
    };
    let last_y = match (window_height - 1).checked_mul(src_height) {
        Some(n) => n,
        None => return None,
    };
    let row = last_y / window_height;
    let col = last_x / window_width;
    proof {
        vstd::arithmetic::div_mod::lemma_div_pos_is_pos(last_x as int, window_width as int);
        vstd::arithmetic::div_mod::lemma_div_pos_is_pos(last_y as int, window_height as int);
    }
    let row_start = match row.checked_mul(src_width) {
        Some(n) => n,
        None => {
            proof {
                assert(row * src_width + col + 1 > usize::MAX) by (nonlinear_arith)
                    requires row * src_width > usize::MAX, col >= 0;
            }
            return None;
        },
    };
    let last = match row_start.checked_add(col) {
        Some(n) => n,
        None => return None,
    };
    match last.checked_add(1) {
        Some(src_len) => Some((src_len, dest_len)),
        None => None,
    }
}

} // verus!
