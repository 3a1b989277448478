use oslibc::graphics::framebuffer::WindowFrameBuffer;
use oslibc::graphics::primitives;
use oslibc::graphics::primitives::{
    circle_filled, circle_outline, rectangle_filled, rectangle_outline, triangle_outline,
};
use oslibc::io::window::Window;

fn fb(w: usize, h: usize) -> (WindowFrameBuffer, Vec<u32>) {
    (WindowFrameBuffer { ptr: 0, width: w, height: h }, vec![0u32; w * h])
}

fn set_points(p: &[u32], w: usize) -> Vec<(usize, usize)> {
    let mut v = Vec::new();
    for (i, c) in p.iter().enumerate() {
        if *c != 0 {
            v.push((i % w, i / w));
        }
    }
    v
}

#[test]
fn frame_buffer_of_window() {
    let win = Window { width: 640, height: 480, x: 10, y: 20, shm_id: 2 };
    let f = WindowFrameBuffer::from_window(&win);
    assert_eq!(f.ptr, 0x0000_4000_0000_0000 + 2 * 64 * 1024 * 1024);
    assert_eq!((f.width, f.height), (640, 480));
}

#[test]
fn put_pixel_sets_one_pixel_and_clips() {
    let (f, mut p) = fb(4, 3);
    f.put_pixel(&mut p, 1, 2, 7);
    assert_eq!(p[9], 7);
    f.put_pixel(&mut p, 4, 0, 7);
    f.put_pixel(&mut p, 0, 3, 7);
    assert_eq!(set_points(&p, 4), vec![(1, 2)]);
}

#[test]
fn fill_span_is_clipped_at_right_edge() {
    let (f, mut p) = fb(4, 3);
    f.fill_span(&mut p, 2, 0, 5, 1);
    assert_eq!(set_points(&p, 4), vec![(2, 0), (3, 0)]);
    f.fill_span(&mut p, 0, 1, 0, 1);
    f.fill_span(&mut p, 0, 3, 2, 1);
    assert_eq!(set_points(&p, 4), vec![(2, 0), (3, 0)]);
}

#[test]
fn clear_paints_everything_but_the_rest_of_the_slice() {
    let f = WindowFrameBuffer { ptr: 0, width: 2, height: 2 };
    let mut p = vec![0u32; 6];
    f.clear(&mut p, 5);
    assert_eq!(p, vec![5, 5, 5, 5, 0, 0]);
}

#[test]
fn axis_aligned_lines_include_both_ends() {
    let (f, mut p) = fb(4, 4);
    primitives::line(&f, &mut p, 3, 1, 0, 1, 1);
    assert_eq!(set_points(&p, 4), vec![(0, 1), (1, 1), (2, 1), (3, 1)]);
    let (f, mut p) = fb(4, 4);
    primitives::line(&f, &mut p, 2, 3, 2, 1, 1);
    assert_eq!(set_points(&p, 4), vec![(2, 1), (2, 2), (2, 3)]);
    let (f, mut p) = fb(4, 4);
    primitives::line(&f, &mut p, 1, 1, 1, 1, 1);
    assert_eq!(set_points(&p, 4), vec![(1, 1)]);
}

#[test]
fn slanted_line_stops_before_its_end_point() {
    let (f, mut p) = fb(4, 4);
    primitives::line(&f, &mut p, 0, 0, 3, 3, 1);
    assert_eq!(set_points(&p, 4), vec![(0, 0), (1, 1), (2, 2)]);
    let (f, mut p) = fb(5, 3);
    primitives::line(&f, &mut p, 4, 2, 0, 0, 1);
    assert_eq!(set_points(&p, 5), vec![(1, 1), (2, 1), (3, 2), (4, 2)]);
}

#[test]
fn triangle_is_three_lines() {
    let (f, mut p) = fb(5, 5);
    triangle_outline(&f, &mut p, 0, 0, 4, 0, 0, 4, 1);
    let pts = set_points(&p, 5);
    assert!(pts.contains(&(0, 0)) && pts.contains(&(4, 0)) && pts.contains(&(0, 4)));
    assert!(pts.contains(&(1, 3)) && pts.contains(&(3, 1)));
    assert_eq!(pts.len(), 4 + 4 + 4);
}

#[test]
fn rectangles() {
    let (f, mut p) = fb(5, 5);
    rectangle_filled(&f, &mut p, 1, 1, 2, 3, 1);
    assert_eq!(set_points(&p, 5), vec![(1, 1), (2, 1), (1, 2), (2, 2), (1, 3), (2, 3)]);
    let (f, mut p) = fb(5, 5);
    rectangle_outline(&f, &mut p, 0, 0, 2, 2, 1);
    assert_eq!(
        set_points(&p, 5),
        vec![(0, 0), (1, 0), (2, 0), (0, 1), (2, 1), (0, 2), (1, 2), (2, 2)]
    );
}

#[test]
fn circle_outline_of_radius_one() {
    let (f, mut p) = fb(3, 3);
    circle_outline(&f, &mut p, 1, 1, 1, 1);
    assert_eq!(set_points(&p, 3), vec![(0, 0), (1, 0), (2, 0), (0, 1), (2, 1), (0, 2), (1, 2), (2, 2)]);
}

#[test]
fn circle_outline_passes_through_axis_points() {
    let (f, mut p) = fb(11, 11);
    circle_outline(&f, &mut p, 5, 5, 4, 1);
    let pts = set_points(&p, 11);
    for q in [(9, 5), (1, 5), (5, 9), (5, 1)] {
        assert!(pts.contains(&q));
    }
    assert!(!pts.contains(&(5, 5)));
}

#[test]
fn circle_is_clipped_at_the_edges() {
    let (f, mut p) = fb(3, 3);
    circle_outline(&f, &mut p, 0, 0, 1, 1);
    assert_eq!(set_points(&p, 3), vec![(1, 0), (0, 1), (1, 1)]);
}

#[test]
fn filled_circle() {
    let (f, mut p) = fb(3, 3);
    circle_filled(&f, &mut p, 1, 1, 1, 1);
    assert_eq!(set_points(&p, 3).len(), 9);
    let (f, mut p) = fb(7, 7);
    circle_filled(&f, &mut p, 3, 3, 0, 1);
    assert_eq!(set_points(&p, 7), vec![(3, 3)]);
}
