use vstd::prelude::*;
use crate::graphics::framebuffer::{WindowFrameBuffer, drawn, lemma_drawn_compose, lemma_drawn_nothing};

verus! {

/// One step of Bresenham's algorithm from `(x, y)` with error `err`: a step
/// in x when twice the error exceeds `-dy`, a step in y when it is below
/// `dx` (both judged on the error before the step).
pub open spec fn bres_step(x: int, y: int, err: int, dx: int, dy: int, sx: int, sy: int) -> (int, int, int) {
    let e2 = 2 * err;
    let (x1, err1) = if e2 > -dy { (x + sx, err - dy) } else { (x, err) };
    let (y1, err2) = if e2 < dx { (y + sy, err1 + dx) } else { (y, err1) };
    (x1, y1, err2)
}

/// The points that the Bresenham loop plots from `(x, y)` on, within `fuel`
/// iterations: each iteration plots the current point and steps; the loop
/// stops once it has stepped onto the end point `(x1, y1)`, which it does not
/// plot.
pub open spec fn bres_walk(
    x: int,
    y: int,
    err: int,
    x1: int,
    y1: int,
    dx: int,
    dy: int,
    sx: int,
    sy: int,
    fuel: nat,
) -> Set<(int, int)>
    decreases fuel,
{
    if fuel == 0 {
        Set::empty()
    } else {
        let (nx, ny, ne) = bres_step(x, y, err, dx, dy, sx, sy);
        set![(x, y)].union(
            if nx == x1 && ny == y1 {
                Set::empty()
            } else {
                bres_walk(nx, ny, ne, x1, y1, dx, dy, sx, sy, (fuel - 1) as nat)
            },
        )
    }
}

pub open spec fn abs_diff(a: int, b: int) -> int {
    if a <= b { b - a } else { a - b }
}

/// The points of the Bresenham line from `(x0, y0)` towards `(x1, y1)`.
pub open spec fn bresenham_points(x0: int, y0: int, x1: int, y1: int) -> Set<(int, int)> {
    let dx = abs_diff(x0, x1);
    let dy = abs_diff(y0, y1);
    let sx = if x0 < x1 { 1int } else { -1int };
    let sy = if y0 < y1 { 1int } else { -1int };
    bres_walk(x0, y0, dx - dy, x1, y1, dx, dy, sx, sy, (dx + dy) as nat)
}

/// The points that `line` sets: a horizontal or vertical line includes both
/// end points; any other line is the Bresenham line, whose loop stops on the
/// end point without plotting it.
pub open spec fn line_points(x0: int, y0: int, x1: int, y1: int) -> Set<(int, int)> {
    if y0 == y1 {
        Set::new(|p: (int, int)| p.1 == y0 && (if x0 <= x1 { x0 <= p.0 <= x1 } else { x1 <= p.0 <= x0 }))
    } else if x0 == x1 {
        Set::new(|p: (int, int)| p.0 == x0 && (if y0 <= y1 { y0 <= p.1 <= y1 } else { y1 <= p.1 <= y0 }))
    } else {
        bresenham_points(x0, y0, x1, y1)
    }
}

/// The coordinates are such that drawing the line does not overflow: a
/// horizontal line is shorter than the whole address range, and a slanted
/// line has its coordinates within the signed range.
pub open spec fn line_in_range(x0: usize, y0: usize, x1: usize, y1: usize) -> bool {
    &&& y0 == y1 ==> abs_diff(x0 as int, x1 as int) < usize::MAX
    &&& (y0 != y1 && x0 != x1) ==> x0 <= isize::MAX && y0 <= isize::MAX && x1 <= isize::MAX && y1 <= isize::MAX
}

/// Every line contains its start point; a horizontal or vertical line
/// contains its end point too.
pub proof fn lemma_line_contains_start(x0: int, y0: int, x1: int, y1: int)
    ensures
        line_points(x0, y0, x1, y1).contains((x0, y0)),
        (x0 == x1 || y0 == y1) ==> line_points(x0, y0, x1, y1).contains((x1, y1)),
{
    if y0 != y1 && x0 != x1 {
        let dx = abs_diff(x0, x1);
        let dy = abs_diff(y0, y1);
        let sx = if x0 < x1 { 1int } else { -1int };
        let sy = if y0 < y1 { 1int } else { -1int };
        let fuel = (dx + dy) as nat;
        assert(fuel > 0);
        assert(bres_walk(x0, y0, dx - dy, x1, y1, dx, dy, sx, sy, fuel).contains((x0, y0)));
    }
}

/// Sets the pixel at signed coordinates; negative coordinates fall outside the
/// picture.
fn put_signed(fb: &WindowFrameBuffer, pixels: &mut [u32], px: i128, py: i128, color: u32)
    requires
        fb.fits(old(pixels)@),
    ensures
        drawn(old(pixels)@, final(pixels)@, fb.width as int, fb.height as int, set![(px as int, py as int)], color),
{
    if px < 0 || py < 0 || px >= fb.width as i128 || py >= fb.height as i128 {
        proof {
            assert forall|a: int, b: int| 0 <= a < fb.width && 0 <= b < fb.height implies !set![(px as int, py as int)].contains((a, b)) by {}
        }
        return;
    }
    fb.put_pixel(pixels, px as usize, py as usize, color);
}

/// A square is at most the square of a bound on the magnitude.
proof fn lemma_square_bound(v: int, b: int)
    requires
        -b <= v <= b,
    ensures
        v * v <= b * b,
{
    assert(v * v <= b * b) by (nonlinear_arith)
        requires
            -b <= v <= b,
    ;
}

/// `line`: draws the line from `(x0, y0)` to `(x1, y1)`.
pub fn line(
    framebuffer: &WindowFrameBuffer,
    pixels: &mut [u32],
    x0: usize,
    y0: usize,
    x1: usize,
    y1: usize,
    color: u32,
)
    requires
        framebuffer.fits(old(pixels)@),
        line_in_range(x0, y0, x1, y1),
    ensures
        drawn(
            old(pixels)@,
            final(pixels)@,
            framebuffer.width as int,
            framebuffer.height as int,
            line_points(x0 as int, y0 as int, x1 as int, y1 as int),
            color,
        ),
{
    let ghost w = framebuffer.width as int;
    let ghost h = framebuffer.height as int;
    if y0 == y1 {
        let (xa, xb) = if x0 <= x1 { (x0, x1) } else { (x1, x0) };
        framebuffer.fill_span(pixels, xa, y0, xb - xa + 1, color);
        proof {
            assert(Set::new(|p: (int, int)| p.1 == y0 && xa <= p.0 < xa + (xb - xa + 1))
                =~= line_points(x0 as int, y0 as int, x1 as int, y1 as int));
        }
        return;
    }
    if x0 == x1 {
        let (ya, yb) = if y0 <= y1 { (y0, y1) } else { (y1, y0) };
        let mut yy = ya;
        let ghost mut visited: Set<(int, int)> = Set::empty();
        proof {
            lemma_drawn_nothing(old(pixels)@, w, h, color);
        }
        loop
            invariant
                framebuffer.fits(old(pixels)@),
                pixels@.len() == old(pixels)@.len(),
                w == framebuffer.width,
                h == framebuffer.height,
                ya <= yy <= yb,
                x0 == x1,
                y0 != y1,
                ya == if y0 <= y1 { y0 } else { y1 },
                yb == if y0 <= y1 { y1 } else { y0 },
                visited == Set::new(|p: (int, int)| p.0 == x0 && ya <= p.1 < yy),
                drawn(old(pixels)@, pixels@, w, h, visited, color),
            decreases yb - yy,
        {
            let ghost before = pixels@;
            framebuffer.put_pixel(pixels, x0, yy, color);
            proof {
                lemma_drawn_compose(old(pixels)@, before, pixels@, w, h, visited, set![(x0 as int, yy as int)], color);
                visited = visited.union(set![(x0 as int, yy as int)]);
            }
            if yy == yb {
                proof {
                    assert(visited =~= line_points(x0 as int, y0 as int, x1 as int, y1 as int));
                }
                return;
            }
            yy = yy + 1;
            proof {
                assert(visited =~= Set::new(|p: (int, int)| p.0 == x0 && ya <= p.1 < yy));
            }
        }
    }
    let x_end = x1 as i128;
    let y_end = y1 as i128;
    let mut x = x0 as i128;
    let mut y = y0 as i128;
    let dx: i128 = if x < x_end { x_end - x } else { x - x_end };
    let dy: i128 = if y < y_end { y_end - y } else { y - y_end };
    let step_x: i128 = if x < x_end { 1 } else { -1 };
    let step_y: i128 = if y < y_end { 1 } else { -1 };
    let mut error: i128 = dx - dy;
    let ghost mut i: int = 0;
    let ghost mut j: int = 0;
    let ghost mut fuel: nat = (dx + dy) as nat;
    let ghost mut visited: Set<(int, int)> = Set::empty();
    let ghost total = bresenham_points(x0 as int, y0 as int, x1 as int, y1 as int);
    proof {
        lemma_drawn_nothing(old(pixels)@, w, h, color);
        assert(total =~= visited.union(bres_walk(x as int, y as int, error as int, x_end as int, y_end as int, dx as int, dy as int, step_x as int, step_y as int, fuel)));
    }
    loop
        invariant
            framebuffer.fits(old(pixels)@),
            pixels@.len() == old(pixels)@.len(),
            w == framebuffer.width,
            h == framebuffer.height,
            x0 <= isize::MAX && y0 <= isize::MAX && x1 <= isize::MAX && y1 <= isize::MAX,
            x_end == x1,
            y_end == y1,
            dx == abs_diff(x0 as int, x1 as int),
            dy == abs_diff(y0 as int, y1 as int),
            dx >= 1,
            dy >= 1,
            step_x == if x0 < x1 { 1int } else { -1int },
            step_y == if y0 < y1 { 1int } else { -1int },
            0 <= i <= dx,
            0 <= j <= dy,
            !(i == dx && j == dy),
            x == if x0 < x1 { x0 + i } else { x0 - i },
            y == if y0 < y1 { y0 + j } else { y0 - j },
            error == dx - dy + j * dx - i * dy,
            -2 * (dx + dy) <= error <= 2 * (dx + dy),
            fuel + i + j >= dx + dy,
            fuel <= dx + dy,
            total == visited.union(bres_walk(x as int, y as int, error as int, x_end as int, y_end as int, dx as int, dy as int, step_x as int, step_y as int, fuel)),
            total == bresenham_points(x0 as int, y0 as int, x1 as int, y1 as int),
            drawn(old(pixels)@, pixels@, w, h, visited, color),
        decreases fuel,
    {
        let ghost before = pixels@;
        put_signed(framebuffer, pixels, x, y, color);
        let ghost (px, py, perr) = (x as int, y as int, error as int);
        let e2: i128 = 2 * error;
        let ghost mut stepped_x = false;
        let ghost mut stepped_y = false;
        if e2 > -dy {
            error = error - dy;
            x = x + step_x;
            proof {
                stepped_x = true;
            }
        }
        if e2 < dx {
            error = error + dx;
            y = y + step_y;
            proof {
                stepped_y = true;
            }
        }
        proof {
            lemma_drawn_compose(old(pixels)@, before, pixels@, w, h, visited, set![(px, py)], color);
            assert(stepped_x ==> i < dx) by {
                if i == dx {
                    assert(2 * perr <= -2 * dy) by (nonlinear_arith)
                        requires
                            perr == dx - dy + j * dx - i * dy,
                            i == dx,
                            j <= dy - 1,
                            dx >= 1,
                            dy >= 1,
                    ;
                }
            }
            assert(stepped_y ==> j < dy) by {
                if j == dy {
                    assert(2 * perr >= 2 * dx) by (nonlinear_arith)
                        requires
                            perr == dx - dy + j * dx - i * dy,
                            j == dy,
                            i <= dx - 1,
                            dx >= 1,
                            dy >= 1,
                    ;
                }
            }
            assert(stepped_x || stepped_y);
            let walk_before = bres_walk(px, py, perr, x_end as int, y_end as int, dx as int, dy as int, step_x as int, step_y as int, fuel);
            assert(bres_step(px, py, perr, dx as int, dy as int, step_x as int, step_y as int) == (x as int, y as int, error as int));
            if stepped_x {
                i = i + 1;
            }
            if stepped_y {
                j = j + 1;
            }
            assert(error == dx - dy + j * dx - i * dy) by (nonlinear_arith)
                requires
                    perr == dx - dy + (if stepped_y { j - 1 } else { j }) * dx - (if stepped_x { i - 1 } else { i }) * dy,
                    error == perr - (if stepped_x { dy } else { 0 }) + (if stepped_y { dx } else { 0 }),
            ;
            assert(fuel >= 1);
            let old_visited = visited;
            visited = visited.union(set![(px, py)]);
            if x == x_end && y == y_end {
                assert(walk_before =~= set![(px, py)]);
                assert(total =~= visited);
            } else {
                let rest = bres_walk(x as int, y as int, error as int, x_end as int, y_end as int, dx as int, dy as int, step_x as int, step_y as int, (fuel - 1) as nat);
                assert(walk_before =~= set![(px, py)].union(rest));
                assert(total =~= visited.union(rest));
            }
        }
        if x == x_end && y == y_end {
            return;
        }
        proof {
            fuel = (fuel - 1) as nat;
            assert(!(i == dx && j == dy)) by {
                if i == dx && j == dy {
                    assert(x == x1);
                    assert(y == y1);
                }
            }
        }
    }
}

/// `triangle_outline`: the three lines between the corners.
pub fn triangle_outline(
    framebuffer: &WindowFrameBuffer,
    pixels: &mut [u32],
    x1: usize,
    y1: usize,
    x2: usize,
    y2: usize,
    x3: usize,
    y3: usize,
    color: u32,
)
    requires
        framebuffer.fits(old(pixels)@),
        line_in_range(x1, y1, x2, y2),
        line_in_range(x1, y1, x3, y3),
        line_in_range(x2, y2, x3, y3),
    ensures
        drawn(
            old(pixels)@,
            final(pixels)@,
            framebuffer.width as int,
            framebuffer.height as int,
            line_points(x1 as int, y1 as int, x2 as int, y2 as int).union(
                line_points(x1 as int, y1 as int, x3 as int, y3 as int),
            ).union(line_points(x2 as int, y2 as int, x3 as int, y3 as int)),
            color,
        ),
{
    let ghost w = framebuffer.width as int;
    let ghost h = framebuffer.height as int;
    let ghost p0 = pixels@;
    line(framebuffer, pixels, x1, y1, x2, y2, color);
    let ghost p1 = pixels@;
    line(framebuffer, pixels, x1, y1, x3, y3, color);
    let ghost p2 = pixels@;
    line(framebuffer, pixels, x2, y2, x3, y3, color);
    proof {
        let a = line_points(x1 as int, y1 as int, x2 as int, y2 as int);
        let b = line_points(x1 as int, y1 as int, x3 as int, y3 as int);
        let c = line_points(x2 as int, y2 as int, x3 as int, y3 as int);
        lemma_drawn_compose(p0, p1, p2, w, h, a, b, color);
        lemma_drawn_compose(p0, p2, pixels@, w, h, a.union(b), c, color);
    }
}

/// The points of a filled rectangle: `width` columns from `x`, `height` rows
/// from `y`.
pub open spec fn rect_points(x: int, y: int, width: int, height: int) -> Set<(int, int)> {
    Set::new(|p: (int, int)| x <= p.0 < x + width && y <= p.1 < y + height)
}

/// `rectangle_filled`: fills `height` rows of `width` pixels from `(x, y)`.
pub fn rectangle_filled(
    framebuffer: &WindowFrameBuffer,
    pixels: &mut [u32],
    x: usize,
    y: usize,
    width: usize,
    height: usize,
    color: u32,
)
    requires
        framebuffer.fits(old(pixels)@),
        y + height <= usize::MAX,
    ensures
        drawn(
            old(pixels)@,
            final(pixels)@,
            framebuffer.width as int,
            framebuffer.height as int,
            rect_points(x as int, y as int, width as int, height as int),
            color,
        ),
{
    let ghost w = framebuffer.width as int;
    let ghost h = framebuffer.height as int;
    let end = y + height;
    let mut yy = y;
    proof {
        lemma_drawn_nothing(old(pixels)@, w, h, color);
        assert(rect_points(x as int, y as int, width as int, 0) =~= Set::empty());
    }
    while yy < end
        invariant
            framebuffer.fits(old(pixels)@),
            pixels@.len() == old(pixels)@.len(),
            w == framebuffer.width,
            h == framebuffer.height,
            end == y + height,
            y <= yy <= end,
            drawn(old(pixels)@, pixels@, w, h, rect_points(x as int, y as int, width as int, yy - y), color),
        decreases end - yy,
    {
        let ghost before = pixels@;
        framebuffer.fill_span(pixels, x, yy, width, color);
        proof {
            let row = Set::new(|p: (int, int)| p.1 == yy && x <= p.0 < x + width);
            lemma_drawn_compose(old(pixels)@, before, pixels@, w, h, rect_points(x as int, y as int, width as int, yy - y), row, color);
            assert(rect_points(x as int, y as int, width as int, yy - y).union(row) =~= rect_points(x as int, y as int, width as int, yy + 1 - y));
        }
        yy = yy + 1;
    }
}

/// The points of a rectangle outline: its four sides, corner to corner.
pub open spec fn rect_outline_points(x: int, y: int, width: int, height: int) -> Set<(int, int)> {
    line_points(x, y, x + width, y).union(line_points(x, y + height, x + width, y + height)).union(
        line_points(x, y, x, y + height),
    ).union(line_points(x + width, y, x + width, y + height))
}

/// `rectangle_outline`: the four sides of the rectangle from `(x, y)` to
/// `(x + width, y + height)`.
pub fn rectangle_outline(
    framebuffer: &WindowFrameBuffer,
    pixels: &mut [u32],
    x: usize,
    y: usize,
    width: usize,
    height: usize,
    color: u32,
)
    requires
        framebuffer.fits(old(pixels)@),
        x + width <= usize::MAX,
        y + height <= usize::MAX,
        width < usize::MAX,
    ensures
        drawn(
            old(pixels)@,
            final(pixels)@,
            framebuffer.width as int,
            framebuffer.height as int,
            rect_outline_points(x as int, y as int, width as int, height as int),
            color,
        ),
{
    let ghost w = framebuffer.width as int;
    let ghost h = framebuffer.height as int;
    let ghost p0 = pixels@;
    line(framebuffer, pixels, x, y, x + width, y, color);
    let ghost p1 = pixels@;
    line(framebuffer, pixels, x, y + height, x + width, y + height, color);
    let ghost p2 = pixels@;
    line(framebuffer, pixels, x, y, x, y + height, color);
    let ghost p3 = pixels@;
    line(framebuffer, pixels, x + width, y, x + width, y + height, color);
    proof {
        let a = line_points(x as int, y as int, x + width, y as int);
        let b = line_points(x as int, y + height, x + width, y + height);
        let c = line_points(x as int, y as int, x as int, y + height);
        let d = line_points(x + width, y as int, x + width, y + height);
        lemma_drawn_compose(p0, p1, p2, w, h, a, b, color);
        lemma_drawn_compose(p0, p2, p3, w, h, a.union(b), c, color);
        lemma_drawn_compose(p0, p3, pixels@, w, h, a.union(b).union(c), d, color);
    }
}

/// The eight points that the midpoint algorithm plots for `(x, y)`: the
/// point mirrored into every octant around `(cx, cy)`.
pub open spec fn octants(cx: int, cy: int, x: int, y: int) -> Set<(int, int)> {
    set![
        (cx + x, cy + y),
        (cx + y, cy + x),
        (cx - y, cy + x),
        (cx - x, cy + y),
        (cx - x, cy - y),
        (cx - y, cy - x),
        (cx + y, cy - x),
        (cx + x, cy - y),
    ]
}

/// The points that the midpoint circle loop plots from `(x, y)` with decision
/// value `d` on: while `y <= x` it plots the eight mirrored points, steps `y`
/// and, when `d` is positive, steps `x` inwards.
pub open spec fn circle_walk(cx: int, cy: int, x: int, y: int, d: int) -> Set<(int, int)>
    decreases x - y + 2,
{
    if y > x {
        Set::empty()
    } else {
        let y2 = y + 1;
        let x2 = if d <= 0 { x } else { x - 1 };
        let d2 = if d <= 0 { d + 2 * y2 + 1 } else { d + 2 * (y2 - x2) + 1 };
        octants(cx, cy, x, y).union(circle_walk(cx, cy, x2, y2, d2))
    }
}

/// The points of the circle outline of radius `r` around `(cx, cy)`.
pub open spec fn circle_outline_points(cx: int, cy: int, r: int) -> Set<(int, int)> {
    circle_walk(cx, cy, r, 0, 1 - r)
}

/// The circle outline of radius `r` passes through the four points at
/// distance `r` left, right, above and below the centre.
pub proof fn lemma_circle_axis_points(cx: int, cy: int, r: int)
    requires
        r >= 0,
    ensures
        circle_outline_points(cx, cy, r).contains((cx + r, cy)),
        circle_outline_points(cx, cy, r).contains((cx - r, cy)),
        circle_outline_points(cx, cy, r).contains((cx, cy + r)),
        circle_outline_points(cx, cy, r).contains((cx, cy - r)),
{
    let o = octants(cx, cy, r, 0);
    assert(o.contains((cx + r, cy + 0)));
    assert(o.contains((cx - r, cy + 0)));
    assert(o.contains((cx + 0, cy + r)));
    assert(o.contains((cx + 0, cy - r)));
}

/// A set of points around `(cx, cy)` that is closed under the reflections of
/// the eight octants: swapping the two offsets, and negating either one.
pub open spec fn octant_symmetric(s: Set<(int, int)>, cx: int, cy: int) -> bool {
    forall|a: int, b: int| #[trigger] s.contains((cx + a, cy + b)) ==> {
        &&& s.contains((cx + b, cy + a))
        &&& s.contains((cx - a, cy + b))
        &&& s.contains((cx + a, cy - b))
    }
}

proof fn lemma_octants_symmetric(cx: int, cy: int, x: int, y: int)
    ensures
        octant_symmetric(octants(cx, cy, x, y), cx, cy),
{
    let s = octants(cx, cy, x, y);
    assert forall|a: int, b: int| #[trigger] s.contains((cx + a, cy + b)) implies {
        &&& s.contains((cx + b, cy + a))
        &&& s.contains((cx - a, cy + b))
        &&& s.contains((cx + a, cy - b))
    } by {
        if a == x && b == y {
        } else if a == y && b == x {
        } else if a == -y && b == x {
        } else if a == -x && b == y {
        } else if a == -x && b == -y {
        } else if a == -y && b == -x {
        } else if a == y && b == -x {
        } else {
            assert(a == x && b == -y);
        }
    }
}

proof fn lemma_circle_walk_symmetric(cx: int, cy: int, x: int, y: int, d: int)
    ensures
        octant_symmetric(circle_walk(cx, cy, x, y, d), cx, cy),
    decreases x - y + 2,
{
    if y <= x {
        let y2 = y + 1;
        let x2 = if d <= 0 { x } else { x - 1 };
        let d2 = if d <= 0 { d + 2 * y2 + 1 } else { d + 2 * (y2 - x2) + 1 };
        lemma_circle_walk_symmetric(cx, cy, x2, y2, d2);
        lemma_octants_symmetric(cx, cy, x, y);
        let o = octants(cx, cy, x, y);
        let rest = circle_walk(cx, cy, x2, y2, d2);
        let s = circle_walk(cx, cy, x, y, d);
        assert(s == o.union(rest));
        assert forall|a: int, b: int| #[trigger] s.contains((cx + a, cy + b)) implies {
            &&& s.contains((cx + b, cy + a))
            &&& s.contains((cx - a, cy + b))
            &&& s.contains((cx + a, cy - b))
        } by {
            if o.contains((cx + a, cy + b)) {
                assert(o.contains((cx + b, cy + a)));
                assert(o.contains((cx - a, cy + b)));
                assert(o.contains((cx + a, cy - b)));
            } else {
                assert(rest.contains((cx + a, cy + b)));
                assert(rest.contains((cx + b, cy + a)));
                assert(rest.contains((cx - a, cy + b)));
                assert(rest.contains((cx + a, cy - b)));
            }
        }
    } else {
        assert(circle_walk(cx, cy, x, y, d) =~= Set::<(int, int)>::empty());
    }
}

/// The circle outline is symmetric in all eight octants: with a point at
/// offset `(a, b)` from the centre it holds the points at `(b, a)`,
/// `(-a, b)` and `(a, -b)`.
pub proof fn lemma_circle_outline_symmetric(cx: int, cy: int, r: int, a: int, b: int)
    requires
        circle_outline_points(cx, cy, r).contains((cx + a, cy + b)),
    ensures
        circle_outline_points(cx, cy, r).contains((cx + b, cy + a)),
        circle_outline_points(cx, cy, r).contains((cx - a, cy + b)),
        circle_outline_points(cx, cy, r).contains((cx + a, cy - b)),
{
    lemma_circle_walk_symmetric(cx, cy, r, 0, 1 - r);
}

/// The centre lies in the signed range and the radius is small enough that
/// the decision values of the circle algorithms fit in 128 bits.
pub open spec fn circle_in_range(cx: usize, cy: usize, radius: usize) -> bool {
    cx <= isize::MAX && cy <= isize::MAX && radius <= 0x2000_0000_0000_0000
}

/// Plots the eight mirrored points of `(x, y)` around `(cx, cy)`.
fn plot_points(
    fb: &WindowFrameBuffer,
    pixels: &mut [u32],
    cx: i128,
    cy: i128,
    x: i128,
    y: i128,
    color: u32,
)
    requires
        fb.fits(old(pixels)@),
        0 <= cx <= isize::MAX,
        0 <= cy <= isize::MAX,
        -0x4000_0000_0000_0000 <= x <= 0x4000_0000_0000_0000,
        -0x4000_0000_0000_0000 <= y <= 0x4000_0000_0000_0000,
    ensures
        drawn(old(pixels)@, final(pixels)@, fb.width as int, fb.height as int, octants(cx as int, cy as int, x as int, y as int), color),
{
    let ghost w = fb.width as int;
    let ghost h = fb.height as int;
    let ghost s0 = pixels@;
    put_signed(fb, pixels, cx + x, cy + y, color);
    let ghost s1 = pixels@;
    put_signed(fb, pixels, cx + y, cy + x, color);
    let ghost s2 = pixels@;
    put_signed(fb, pixels, cx - y, cy + x, color);
    let ghost s3 = pixels@;
    put_signed(fb, pixels, cx - x, cy + y, color);
    let ghost s4 = pixels@;
    put_signed(fb, pixels, cx - x, cy - y, color);
    let ghost s5 = pixels@;
    put_signed(fb, pixels, cx - y, cy - x, color);
    let ghost s6 = pixels@;
    put_signed(fb, pixels, cx + y, cy - x, color);
    let ghost s7 = pixels@;
    put_signed(fb, pixels, cx + x, cy - y, color);
    proof {
        let (cx, cy, x, y) = (cx as int, cy as int, x as int, y as int);
        let a = set![(cx + x, cy + y)];
        let b = set![(cx + y, cy + x)];
        let c = set![(cx - y, cy + x)];
        let d = set![(cx - x, cy + y)];
        let e = set![(cx - x, cy - y)];
        let f = set![(cx - y, cy - x)];
        let g = set![(cx + y, cy - x)];
        let k = set![(cx + x, cy - y)];
        lemma_drawn_compose(s0, s1, s2, w, h, a, b, color);
        lemma_drawn_compose(s0, s2, s3, w, h, a.union(b), c, color);
        lemma_drawn_compose(s0, s3, s4, w, h, a.union(b).union(c), d, color);
        lemma_drawn_compose(s0, s4, s5, w, h, a.union(b).union(c).union(d), e, color);
        lemma_drawn_compose(s0, s5, s6, w, h, a.union(b).union(c).union(d).union(e), f, color);
        lemma_drawn_compose(s0, s6, s7, w, h, a.union(b).union(c).union(d).union(e).union(f), g, color);
        lemma_drawn_compose(s0, s7, pixels@, w, h, a.union(b).union(c).union(d).union(e).union(f).union(g), k, color);
        assert(a.union(b).union(c).union(d).union(e).union(f).union(g).union(k) =~= octants(cx, cy, x, y));
    }
}

/// `circle_outline`: the midpoint circle of radius `radius` around `(cx, cy)`.
pub fn circle_outline(framebuffer: &WindowFrameBuffer, pixels: &mut [u32], cx: usize, cy: usize, radius: usize, color: u32)
    requires
        framebuffer.fits(old(pixels)@),
        circle_in_range(cx, cy, radius),
    ensures
        drawn(
            old(pixels)@,
            final(pixels)@,
            framebuffer.width as int,
            framebuffer.height as int,
            circle_outline_points(cx as int, cy as int, radius as int),
            color,
        ),
{
    let ghost w = framebuffer.width as int;
    let ghost h = framebuffer.height as int;
    let ghost r = radius as int;
    let mut x: i128 = radius as i128;
    let mut y: i128 = 0;
    let mut d: i128 = 1 - x;
    let cx = cx as i128;
    let cy = cy as i128;
    let ghost mut visited: Set<(int, int)> = Set::empty();
    let ghost total = circle_outline_points(cx as int, cy as int, r);
    proof {
        lemma_drawn_nothing(old(pixels)@, w, h, color);
        assert(total =~= visited.union(circle_walk(cx as int, cy as int, x as int, y as int, d as int)));
    }
    while y <= x
        invariant
            framebuffer.fits(old(pixels)@),
            pixels@.len() == old(pixels)@.len(),
            w == framebuffer.width,
            h == framebuffer.height,
            0 <= cx <= isize::MAX,
            0 <= cy <= isize::MAX,
            0 <= r <= 0x2000_0000_0000_0000,
            -1 <= x <= r,
            0 <= y <= x + 2,
            d == x * x + y * y - x - r * r + 1 + 2 * y,
            total == visited.union(circle_walk(cx as int, cy as int, x as int, y as int, d as int)),
            total == circle_outline_points(cx as int, cy as int, r),
            drawn(old(pixels)@, pixels@, w, h, visited, color),
        decreases x - y + 2,
    {
        let ghost before = pixels@;
        plot_points(framebuffer, pixels, cx, cy, x, y, color);
        proof {
            lemma_drawn_compose(old(pixels)@, before, pixels@, w, h, visited, octants(cx as int, cy as int, x as int, y as int), color);
            lemma_square_bound(x as int, 0x4000_0000_0000_0000);
            lemma_square_bound(y as int, 0x4000_0000_0000_0000);
            lemma_square_bound(r, 0x4000_0000_0000_0000);
        }
        let ghost (ox, oy, od) = (x as int, y as int, d as int);
        y = y + 1;
        if d <= 0 {
            d = d + 2 * y + 1;
        } else {
            x = x - 1;
            d = d + 2 * (y - x) + 1;
        }
        proof {
            assert(d == x * x + y * y - x - r * r + 1 + 2 * y) by (nonlinear_arith)
                requires
                    od == ox * ox + oy * oy - ox - r * r + 1 + 2 * oy,
                    y == oy + 1,
                    od <= 0 ==> x == ox && d == od + 2 * y + 1,
                    od > 0 ==> x == ox - 1 && d == od + 2 * (y - x) + 1,
            ;
            let rest = circle_walk(cx as int, cy as int, x as int, y as int, d as int);
            assert(circle_walk(cx as int, cy as int, ox, oy, od) == octants(cx as int, cy as int, ox, oy).union(rest));
            visited = visited.union(octants(cx as int, cy as int, ox, oy));
            assert(total =~= visited.union(rest));
        }
    }
    proof {
        assert(circle_walk(cx as int, cy as int, x as int, y as int, d as int) =~= Set::empty());
        assert(total =~= visited);
    }
}

/// The pixels `from..=to` of the rows `row_a` and `row_b`.
pub open spec fn span_pair_points(from: int, to: int, row_a: int, row_b: int) -> Set<(int, int)> {
    Set::new(|p: (int, int)| from <= p.0 <= to && (p.1 == row_a || p.1 == row_b))
}

/// The rows that the filled-circle loop paints for `(x, y)`: `x` to either
/// side of the centre in the rows `y` above and below, and `y` to either side
/// in the rows `x` above and below.
pub open spec fn filled_rows(x0: int, y0: int, x: int, y: int) -> Set<(int, int)> {
    span_pair_points(x0 - x, x0 + x, y0 + y, y0 - y).union(span_pair_points(x0 - y, x0 + y, y0 + x, y0 - x))
}

/// The points that the filled-circle loop paints from `(x, y)` on, with its
/// error terms `x_change`, `y_change` and `radius_error`.
pub open spec fn filled_walk(x0: int, y0: int, x: int, y: int, x_change: int, y_change: int, radius_error: int) -> Set<(int, int)>
    decreases x - y + 2,
{
    if x < y {
        Set::empty()
    } else {
        let y2 = y + 1;
        let re = radius_error + y_change;
        let yc = y_change + 2;
        let shrink = re * 2 + x_change > 0;
        let x2 = if shrink { x - 1 } else { x };
        let re2 = if shrink { re + x_change } else { re };
        let xc2 = if shrink { x_change + 2 } else { x_change };
        filled_rows(x0, y0, x, y).union(filled_walk(x0, y0, x2, y2, xc2, yc, re2))
    }
}

/// The points of the filled circle of radius `r` around `(x0, y0)`.
pub open spec fn circle_filled_points(x0: int, y0: int, r: int) -> Set<(int, int)> {
    filled_walk(x0, y0, r, 0, 1 - 2 * r, 0, 0)
}

proof fn lemma_filled_walk_column(x0: int, y0: int, x: int, y: int, xc: int, yc: int, re: int, k: int)
    requires
        0 <= y <= k <= x,
    ensures
        filled_walk(x0, y0, x, y, xc, yc, re).contains((x0, y0 + k)),
        filled_walk(x0, y0, x, y, xc, yc, re).contains((x0, y0 - k)),
    decreases x - y + 2,
{
    let y2 = y + 1;
    let re1 = re + yc;
    let yc2 = yc + 2;
    let shrink = re1 * 2 + xc > 0;
    let x2 = if shrink { x - 1 } else { x };
    let re2 = if shrink { re1 + xc } else { re1 };
    let xc2 = if shrink { xc + 2 } else { xc };
    let rows = filled_rows(x0, y0, x, y);
    let rest = filled_walk(x0, y0, x2, y2, xc2, yc2, re2);
    assert(filled_walk(x0, y0, x, y, xc, yc, re) == rows.union(rest));
    if k == y {
        assert(span_pair_points(x0 - x, x0 + x, y0 + y, y0 - y).contains((x0, y0 + k)));
        assert(span_pair_points(x0 - x, x0 + x, y0 + y, y0 - y).contains((x0, y0 - k)));
    } else if k == x {
        assert(span_pair_points(x0 - y, x0 + y, y0 + x, y0 - x).contains((x0, y0 + k)));
        assert(span_pair_points(x0 - y, x0 + y, y0 + x, y0 - x).contains((x0, y0 - k)));
    } else {
        lemma_filled_walk_column(x0, y0, x2, y2, xc2, yc2, re2, k);
    }
}

/// The filled circle covers its vertical and its horizontal diameter: every
/// point up to `r` above, below, left or right of the centre is painted.
pub proof fn lemma_circle_filled_diameters(x0: int, y0: int, r: int, k: int)
    requires
        0 <= k <= r,
    ensures
        circle_filled_points(x0, y0, r).contains((x0, y0 + k)),
        circle_filled_points(x0, y0, r).contains((x0, y0 - k)),
        circle_filled_points(x0, y0, r).contains((x0 + k, y0)),
        circle_filled_points(x0, y0, r).contains((x0 - k, y0)),
{
    lemma_filled_walk_column(x0, y0, r, 0, 1 - 2 * r, 0, 0, k);
    let rows = filled_rows(x0, y0, r, 0);
    assert(span_pair_points(x0 - r, x0 + r, y0 + 0, y0 - 0).contains((x0 + k, y0)));
    assert(span_pair_points(x0 - r, x0 + r, y0 + 0, y0 - 0).contains((x0 - k, y0)));
    assert(rows.contains((x0 + k, y0)));
    assert(rows.contains((x0 - k, y0)));
}

/// Paints the pixels `from..=to` of the rows `row_a` and `row_b`.
fn span_pair(fb: &WindowFrameBuffer, pixels: &mut [u32], from: i128, to: i128, row_a: i128, row_b: i128, color: u32)
    requires
        fb.fits(old(pixels)@),
        to < i128::MAX,
    ensures
        drawn(old(pixels)@, final(pixels)@, fb.width as int, fb.height as int, span_pair_points(from as int, to as int, row_a as int, row_b as int), color),
{
    let ghost w = fb.width as int;
    let ghost h = fb.height as int;
    let mut i = from;
    proof {
        lemma_drawn_nothing(old(pixels)@, w, h, color);
        assert(span_pair_points(from as int, i - 1, row_a as int, row_b as int) =~= Set::empty());
    }
    while i <= to
        invariant
            fb.fits(old(pixels)@),
            pixels@.len() == old(pixels)@.len(),
            w == fb.width,
            h == fb.height,
            to < i128::MAX,
            from <= i || i == from,
            i <= to + 1 || i == from,
            drawn(old(pixels)@, pixels@, w, h, span_pair_points(from as int, i - 1, row_a as int, row_b as int), color),
        decreases to + 1 - i,
    {
        let ghost s0 = pixels@;
        put_signed(fb, pixels, i, row_a, color);
        let ghost s1 = pixels@;
        put_signed(fb, pixels, i, row_b, color);
        proof {
            let done = span_pair_points(from as int, i - 1, row_a as int, row_b as int);
            lemma_drawn_compose(old(pixels)@, s0, s1, w, h, done, set![(i as int, row_a as int)], color);
            lemma_drawn_compose(old(pixels)@, s1, pixels@, w, h, done.union(set![(i as int, row_a as int)]), set![(i as int, row_b as int)], color);
            assert(done.union(set![(i as int, row_a as int)]).union(set![(i as int, row_b as int)]) =~= span_pair_points(from as int, i as int, row_a as int, row_b as int));
        }
        i = i + 1;
    }
    proof {
        if i == from {
            assert(span_pair_points(from as int, to as int, row_a as int, row_b as int) =~= Set::empty());
        } else {
            assert(i == to + 1);
        }
    }
}

/// `circle_filled`: the filled circle of radius `radius` around `(x0, y0)`,
/// painted row by row.
pub fn circle_filled(framebuffer: &WindowFrameBuffer, pixels: &mut [u32], x0: usize, y0: usize, radius: usize, color: u32)
    requires
        framebuffer.fits(old(pixels)@),
        circle_in_range(x0, y0, radius),
    ensures
        drawn(
            old(pixels)@,
            final(pixels)@,
            framebuffer.width as int,
            framebuffer.height as int,
            circle_filled_points(x0 as int, y0 as int, radius as int),
            color,
        ),
{
    let ghost w = framebuffer.width as int;
    let ghost h = framebuffer.height as int;
    let ghost r = radius as int;
    let cx = x0 as i128;
    let cy = y0 as i128;
    let mut x: i128 = radius as i128;
    let mut y: i128 = 0;
    let mut x_change: i128 = 1 - (radius as i128 * 2);
    let mut y_change: i128 = 0;
    let mut radius_error: i128 = 0;
    let ghost mut visited: Set<(int, int)> = Set::empty();
    let ghost total = circle_filled_points(x0 as int, y0 as int, r);
    proof {
        lemma_drawn_nothing(old(pixels)@, w, h, color);
        assert(total =~= visited.union(filled_walk(cx as int, cy as int, x as int, y as int, x_change as int, y_change as int, radius_error as int)));
    }
    while x >= y
        invariant
            framebuffer.fits(old(pixels)@),
            pixels@.len() == old(pixels)@.len(),
            w == framebuffer.width,
            h == framebuffer.height,
            0 <= cx <= isize::MAX,
            0 <= cy <= isize::MAX,
            cx == x0,
            cy == y0,
            0 <= r <= 0x2000_0000_0000_0000,
            -1 <= x <= r,
            0 <= y <= x + 2,
            x_change == 1 - 2 * x,
            y_change == 2 * y,
            radius_error == x * x + y * y - y - r * r,
            total == visited.union(filled_walk(cx as int, cy as int, x as int, y as int, x_change as int, y_change as int, radius_error as int)),
            total == circle_filled_points(x0 as int, y0 as int, r),
            drawn(old(pixels)@, pixels@, w, h, visited, color),
        decreases x - y + 2,
    {
        let ghost s0 = pixels@;
        span_pair(framebuffer, pixels, cx - x, cx + x, cy + y, cy - y, color);
        let ghost s1 = pixels@;
        span_pair(framebuffer, pixels, cx - y, cx + y, cy + x, cy - x, color);
        proof {
            let a = span_pair_points(cx - x, cx + x, cy + y, cy - y);
            let b = span_pair_points(cx - y, cx + y, cy + x, cy - x);
            lemma_drawn_compose(old(pixels)@, s0, s1, w, h, visited, a, color);
            lemma_drawn_compose(old(pixels)@, s1, pixels@, w, h, visited.union(a), b, color);
            lemma_square_bound(x as int, 0x4000_0000_0000_0000);
            lemma_square_bound(y as int, 0x4000_0000_0000_0000);
            lemma_square_bound(r, 0x4000_0000_0000_0000);
        }
        let ghost (ox, oy, oxc, oyc, ore) = (x as int, y as int, x_change as int, y_change as int, radius_error as int);
        y = y + 1;
        radius_error = radius_error + y_change;
        y_change = y_change + 2;
        if (radius_error * 2) + x_change > 0 {
            x = x - 1;
            radius_error = radius_error + x_change;
            x_change = x_change + 2;
        }
        proof {
            assert(radius_error == x * x + y * y - y - r * r) by (nonlinear_arith)
                requires
                    ore == ox * ox + oy * oy - oy - r * r,
                    oyc == 2 * oy,
                    oxc == 1 - 2 * ox,
                    y == oy + 1,
                    x == ox || x == ox - 1,
                    x == ox ==> radius_error == ore + oyc,
                    x == ox - 1 ==> radius_error == ore + oyc + oxc,
            ;
            let rest = filled_walk(cx as int, cy as int, x as int, y as int, x_change as int, y_change as int, radius_error as int);
            assert(filled_walk(cx as int, cy as int, ox, oy, oxc, oyc, ore) == filled_rows(cx as int, cy as int, ox, oy).union(rest));
            visited = visited.union(filled_rows(cx as int, cy as int, ox, oy));
            assert(total =~= visited.union(rest));
        }
    }
    proof {
        assert(filled_walk(cx as int, cy as int, x as int, y as int, x_change as int, y_change as int, radius_error as int) =~= Set::empty());
        assert(total =~= visited);
    }
}

} // verus!
