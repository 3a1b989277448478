use oslibc::file::{fd_ok, read_count, FILE, SEEK_CUR};
use oslibc::io::input::{parse_input_events, KeyboardEvent};
use oslibc::io::ipc::{c_string, decode_port_message, port_call_ok, Permissions, MANAGE, READ, WRITE};
use oslibc::io::text::{parse_isize, parse_unsigned, split_whitespace};
use oslibc::io::time::timeval_from_ticks;
use oslibc::io::window::{
    priv_ipc_reply, priv_port_name, request_window_buf_message, scale_extent, scale_to_window,
    window_buf_reply, window_shm_size, PrivIpcReply, WindowBufReply,
};

fn chars(s: &str) -> Vec<char> {
    s.chars().collect()
}

#[test]
fn file_handles() {
    assert_eq!(FILE::zeroed().fd, -1);
    assert!(fd_ok(0) && fd_ok(15));
    assert!(!fd_ok(16) && !fd_ok(-1) && !fd_ok(i64::MAX));
    assert_eq!(read_count(-5), 0);
    assert_eq!(read_count(12), 12);
    assert_eq!(SEEK_CUR, 1);
}

#[test]
fn time_from_ticks() {
    let t = timeval_from_ticks(123456);
    assert_eq!((t.tv_sec, t.tv_usec), (123, 456000));
    let z = timeval_from_ticks(0);
    assert_eq!((z.tv_sec, z.tv_usec), (0, 0));
    for ticks in [1u64, 999, 1000, 1001, u64::MAX] {
        let t = timeval_from_ticks(ticks);
        assert_eq!(t.tv_sec as i128 * 1_000_000 + t.tv_usec as i128, ticks as i128 * 1000);
    }
}

#[test]
fn words_of_a_message() {
    let m = chars("  ab\tc \u{3000}d  ");
    assert_eq!(split_whitespace(&m), vec![(2, 4), (5, 6), (8, 9)]);
    assert!(split_whitespace(&chars("   ")).is_empty());
    assert_eq!(split_whitespace(&chars("x")), vec![(0, 1)]);
}

#[test]
fn numbers_parse_like_from_str() {
    assert_eq!(parse_unsigned(&chars("+12"), u64::MAX), Some(12));
    assert_eq!(parse_unsigned(&chars("12a"), u64::MAX), None);
    assert_eq!(parse_unsigned(&chars(""), u64::MAX), None);
    assert_eq!(parse_unsigned(&chars("+"), u64::MAX), None);
    assert_eq!(parse_unsigned(&chars("-1"), u64::MAX), None);
    assert_eq!(parse_unsigned(&chars("255"), 255), Some(255));
    assert_eq!(parse_unsigned(&chars("256"), 255), None);
    assert_eq!(parse_unsigned(&chars("18446744073709551615"), u64::MAX), Some(u64::MAX));
    assert_eq!(parse_unsigned(&chars("18446744073709551616"), u64::MAX), None);
    assert_eq!(parse_isize(&chars("-9223372036854775808")), Some(isize::MIN));
    assert_eq!(parse_isize(&chars("9223372036854775808")), None);
    assert_eq!(parse_isize(&chars("-")), None);
    assert_eq!(parse_isize(&chars("-42")), Some(-42));
    for s in ["0", "+7", "-7", "x", "", "12 ", "0042"] {
        assert_eq!(parse_isize(&chars(s)).map(|v| v as i64), s.parse::<i64>().ok());
        assert_eq!(parse_unsigned(&chars(s), u16::MAX as u64).map(|v| v as u16), s.parse::<u16>().ok());
    }
}

#[test]
fn private_port_answer() {
    match priv_ipc_reply(&chars("ack_request_priv_ipc 42 port_x"), 42) {
        PrivIpcReply::Accept { name } => assert_eq!(name, chars("port_x")),
        _ => panic!("expected a port"),
    }
    assert!(matches!(priv_ipc_reply(&chars("ack_request_priv_ipc 41 port_x"), 42), PrivIpcReply::Ignore));
    assert!(matches!(priv_ipc_reply(&chars("ack_request_priv_ipc x port_x"), -1), PrivIpcReply::Accept { .. }));
    assert!(matches!(priv_ipc_reply(&chars("ack_request_priv_ipc"), 42), PrivIpcReply::Malformed));
    assert!(matches!(priv_ipc_reply(&chars("ack_request_priv_ipc 42"), 42), PrivIpcReply::Malformed));
    assert!(matches!(priv_ipc_reply(&chars("hello 42 x"), 42), PrivIpcReply::Ignore));
}

#[test]
fn window_buffer_answer() {
    match window_buf_reply(&chars("ack_request_window_buf 640 480 10 20 shm0 3")) {
        WindowBufReply::Granted { window, shm_name } => {
            assert_eq!((window.width, window.height, window.x, window.y, window.shm_id), (640, 480, 10, 20, 3));
            assert_eq!(shm_name, chars("shm0"));
        },
        _ => panic!("expected a window"),
    }
    match window_buf_reply(&chars("ack_request_window_buf w 480 -1 20 s 3")) {
        WindowBufReply::Granted { window, .. } => {
            assert_eq!((window.width, window.x), (0, 0));
        },
        _ => panic!("expected a window"),
    }
    assert!(matches!(window_buf_reply(&chars("ack_request_window_buf 1 2 3")), WindowBufReply::Malformed));
    assert!(matches!(window_buf_reply(&chars("nack 1 2 3 4 5 6")), WindowBufReply::Ignore));
}

#[test]
fn outgoing_messages() {
    assert_eq!(request_window_buf_message(640, 480), b"request_window_buf 640 480".to_vec());
    assert_eq!(request_window_buf_message(0, 7), b"request_window_buf 0 7".to_vec());
    assert_eq!(priv_port_name(12), b"wm_priv_12".to_vec());
    assert_eq!(priv_port_name(-3), b"wm_priv_-3".to_vec());
    assert_eq!(window_shm_size(2, 3), Some(25));
    assert_eq!(window_shm_size(usize::MAX, 2), None);
    assert_eq!(window_shm_size(usize::MAX / 4, 1), Some((usize::MAX / 4 * 4 + 1) as u64));
}

#[test]
fn scaling_copies_nearest_pixels() {
    let src = [1u32, 2, 3, 4];
    let mut dst = [0u32; 17];
    scale_to_window(&src, 2, 2, &mut dst, 4, 4);
    assert_eq!(&dst[..16], &[1, 1, 2, 2, 1, 1, 2, 2, 3, 3, 4, 4, 3, 3, 4, 4]);
    assert_eq!(dst[16], 0);
    let mut same = [0u32; 4];
    scale_to_window(&src, 2, 2, &mut same, 2, 2);
    assert_eq!(same, src);
    let mut small = [0u32; 1];
    scale_to_window(&src, 2, 2, &mut small, 1, 1);
    assert_eq!(small, [1]);
}

#[test]
fn keyboard_events_from_message() {
    let ev = parse_input_events(&chars("kbd 30 1 1 97 mouse 1 2 3 4 5 kbd 31 0 0 98 junk"));
    assert_eq!(
        ev,
        vec![
            KeyboardEvent { state: 1, _pad1: 0, key: 30, mods: 1, _pad2: 0, unicode: 97 },
            KeyboardEvent { state: 0, _pad1: 0, key: 31, mods: 0, _pad2: 0, unicode: 98 },
        ]
    );
    assert!(parse_input_events(&chars("kbd 1 2")).is_empty());
    let odd = parse_input_events(&chars("x kbd 70000 x 300 -1"));
    assert_eq!(odd, vec![KeyboardEvent { state: 0, _pad1: 0, key: 0, mods: 0, _pad2: 0, unicode: 0 }]);
    assert!(parse_input_events(&chars("mouse 1")).is_empty());
}

#[test]
fn c_strings_and_port_results() {
    assert_eq!(c_string("abc"), Some(b"abc\0".to_vec()));
    assert_eq!(c_string(""), Some(vec![0]));
    assert_eq!(c_string("a\0b"), None);
    assert!(!port_call_ok(-1));
    assert!(port_call_ok(0) && port_call_ok(-2) && port_call_ok(5));
}

#[test]
fn port_messages_are_decoded() {
    assert_eq!(decode_port_message(5, b"hi\0xx"), Some((5, "hi".to_string())));
    assert_eq!(decode_port_message(5, "h\u{e9}\0".as_bytes()), Some((5, "h\u{e9}".to_string())));
    assert_eq!(decode_port_message(5, b"\xff\0"), None);
    assert_eq!(decode_port_message(0, b"hi\0"), None);
    assert_eq!(decode_port_message(-1, b"hi\0"), None);
}

#[test]
fn permissions_bits() {
    let p = Permissions::from_bits_truncate(READ).union(Permissions::from_bits_truncate(MANAGE));
    assert_eq!(p.bits(), 5);
    assert!(p.contains(Permissions::from_bits_truncate(READ)));
    assert!(!p.contains(Permissions::from_bits_truncate(WRITE)));
    assert_eq!(Permissions::from_bits_truncate(0xFF).bits(), 7);
}

#[test]
fn scaled_copy_extent() {
    // A 2x2 picture into a 4x4 window reads up to pixel (1, 1) of the source.
    assert_eq!(scale_extent(2, 2, 4, 4), Some((4, 16)));
    // Shrinking a 10x10 picture to 3x2: the last window pixel shows (6, 5).
    assert_eq!(scale_extent(10, 10, 3, 2), Some((57, 6)));
    assert_eq!(scale_extent(5, 5, 0, 7), Some((0, 0)));
    assert_eq!(scale_extent(1, 1, usize::MAX, 2), None);
    assert_eq!(scale_extent(usize::MAX, 1, 3, 1), None);
}
