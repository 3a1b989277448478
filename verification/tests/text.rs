use oslibc::format::{
    format_args_fit, next_directive, snprintf, vsnprintf, write_c_formatted, ArgKind, Directive, FmtArg,
};
use oslibc::strings::{
    abs, atoi, compare_str, strcasecmp, strchr, strcmp, strlen, strncasecmp, strncmp, strncpy, strrchr,
    strstr, tolower, toupper, toupper_table,
};

fn fmt(f: &str, args: &[FmtArg]) -> Vec<u8> {
    write_c_formatted(f.as_bytes(), args)
}

#[test]
fn strlen_stops_at_zero_or_end() {
    assert_eq!(strlen(b"hello\0world"), 5);
    assert_eq!(strlen(b"abc"), 3);
    assert_eq!(strlen(b"\0"), 0);
    assert_eq!(strlen(b""), 0);
}

#[test]
fn string_comparisons() {
    assert_eq!(strcmp(b"abc\0", b"abd\0"), -1);
    assert_eq!(strcmp(b"abc\0", b"abc\0"), 0);
    assert_eq!(strcmp(b"a\0", b"\0"), 97);
    assert_eq!(strcmp(b"abc", b"abc\0zzz"), 0);
    assert_eq!(strcasecmp(b"ABC\0", b"abc\0"), 0);
    assert_eq!(strcasecmp(b"ABD\0", b"abc\0"), 1);
    assert_eq!(strncmp(b"abcx\0", b"abcy\0", 3), 0);
    assert_eq!(strncmp(b"abcx\0", b"abcy\0", 4), -1);
    assert_eq!(strncasecmp(b"HELLO\0", b"help\0", 3), 0);
    assert_eq!(strncasecmp(b"HELLO\0", b"help\0", 4), -4);
    assert_eq!(compare_str(b"x", b"y", false, 0), 0);
}

#[test]
fn comparison_is_antisymmetric_and_reflexive() {
    let words: [&[u8]; 5] = [b"apple\0", b"Apple\0", b"app\0", b"\0", b"banana\0"];
    for a in words.iter() {
        assert_eq!(strcmp(a, a), 0);
        assert_eq!(strcasecmp(a, a), 0);
        for b in words.iter() {
            assert_eq!(strcmp(a, b), -strcmp(b, a));
            assert_eq!(strncasecmp(a, b, 3), -strncasecmp(b, a, 3));
        }
    }
}

#[test]
fn strncpy_copies_and_pads() {
    let mut d = [9u8; 6];
    strncpy(&mut d, b"hi\0", 5);
    assert_eq!(d, [b'h', b'i', 0, 0, 0, 9]);
    let mut e = [9u8; 4];
    strncpy(&mut e, b"hello\0", 3);
    assert_eq!(e, [b'h', b'e', b'l', 9]);
    let mut f = [9u8; 2];
    strncpy(&mut f, b"x", 2);
    assert_eq!(f, [b'x', 0]);
}

#[test]
fn strstr_finds_first_occurrence() {
    assert_eq!(strstr(b"hello world\0", b"wor\0"), Some(6));
    assert_eq!(strstr(b"hello\0", b"\0"), Some(0));
    assert_eq!(strstr(b"\0", b"\0"), Some(0));
    assert_eq!(strstr(b"hello\0", b"xyz\0"), None);
    assert_eq!(strstr(b"aaab\0", b"aab\0"), Some(1));
    assert_eq!(strstr(b"abc\0", b"abcd\0"), None);
    assert_eq!(strstr(b"abc\0def", b"def\0"), None);
}

#[test]
fn strchr_and_strrchr() {
    assert_eq!(strchr(b"hello\0", b'l' as i32), Some(2));
    assert_eq!(strchr(b"hello\0", 0x100 + b'h' as i32), Some(0));
    assert_eq!(strchr(b"hello\0", b'z' as i32), None);
    assert_eq!(strchr(b"hello\0", 0), None);
    assert_eq!(strrchr(b"hello\0", b'l'), Some(3));
    assert_eq!(strrchr(b"hello\0", b'z'), None);
    assert_eq!(strrchr(b"hello\0", 0), Some(6));
}

#[test]
fn atoi_reads_leading_number() {
    assert_eq!(atoi(b"  -42abc"), -42);
    assert_eq!(atoi(b"+7\0"), 7);
    assert_eq!(atoi(b"\t\n 123"), 123);
    assert_eq!(atoi(b""), 0);
    assert_eq!(atoi(b"abc"), 0);
    assert_eq!(atoi(b"- 5"), 0);
    assert_eq!(atoi(b"2147483647"), i32::MAX);
    assert_eq!(atoi(b"-2147483647"), -i32::MAX);
    assert_eq!(atoi(b"2147483648"), i32::MIN);
    assert_eq!(atoi(b"\x0b5"), 0);
}

#[test]
fn atoi_matches_exact_value_when_it_fits() {
    for v in [0i64, 1, 9, 10, 99999, 2147483647, -2147483647, -1] {
        let s = format!("{}", v);
        assert_eq!(atoi(s.as_bytes()) as i64, v);
    }
}

#[test]
fn case_conversion() {
    assert_eq!(toupper(b'a' as i32), b'A' as i32);
    assert_eq!(toupper(b'Z' as i32), b'Z' as i32);
    assert_eq!(toupper(0x161), b'A' as i32);
    assert_eq!(tolower(b'Q' as i32), b'q' as i32);
    assert_eq!(tolower(b'5' as i32), b'5' as i32);
    assert_eq!(tolower(-1), 255);
}

#[test]
fn abs_values() {
    assert_eq!(abs(-5), 5);
    assert_eq!(abs(5), 5);
    assert_eq!(abs(0), 0);
    assert_eq!(abs(i32::MIN), i32::MIN);
}

#[test]
fn toupper_table_entries() {
    let t = toupper_table();
    assert_eq!(t.len(), 384);
    assert_eq!(t[128 + b'a' as usize], b'A' as i32);
    assert_eq!(t[128 + b'A' as usize], b'A' as i32);
    assert_eq!(t[0], 128);
    assert_eq!(t[383], 255);
    assert_eq!(t[127], 255);
}

#[test]
fn format_integers_like_rust() {
    for v in [0i32, 5, -5, 42, -42, i32::MAX, i32::MIN] {
        assert_eq!(fmt("%d", &[FmtArg::I32(v)]), format!("{}", v).into_bytes());
        assert_eq!(fmt("%i", &[FmtArg::I32(v)]), format!("{}", v).into_bytes());
        for p in [0usize, 1, 3, 12] {
            let f = format!("%.{}d", p);
            assert_eq!(fmt(&f, &[FmtArg::I32(v)]), format!("{:01$}", v, p).into_bytes());
        }
    }
    for v in [0u32, 7, 255, 4096, u32::MAX] {
        assert_eq!(fmt("%u", &[FmtArg::U32(v)]), format!("{}", v).into_bytes());
        assert_eq!(fmt("%x", &[FmtArg::U32(v)]), format!("{:x}", v).into_bytes());
        assert_eq!(fmt("%X", &[FmtArg::U32(v)]), format!("{:X}", v).into_bytes());
        assert_eq!(fmt("%o", &[FmtArg::U32(v)]), format!("{:o}", v).into_bytes());
        assert_eq!(fmt("%.6x", &[FmtArg::U32(v)]), format!("{:06x}", v).into_bytes());
    }
    for v in [0i64, -9000000000, i64::MIN, i64::MAX] {
        assert_eq!(fmt("%ld", &[FmtArg::I64(v)]), format!("{}", v).into_bytes());
        assert_eq!(fmt("%.25li", &[FmtArg::I64(v)]), format!("{:025}", v).into_bytes());
    }
    assert_eq!(fmt("%lu", &[FmtArg::U64(u64::MAX)]), b"18446744073709551615".to_vec());
}

#[test]
fn format_pointers_strings_and_chars() {
    assert_eq!(fmt("%p", &[FmtArg::Ptr(0)]), b"(null)".to_vec());
    assert_eq!(fmt("%p", &[FmtArg::Ptr(0x1000)]), b"0x1000".to_vec());
    assert_eq!(fmt("[%s]", &[FmtArg::Str(Some(b"hello".to_vec()))]), b"[hello]".to_vec());
    assert_eq!(fmt("%.2s", &[FmtArg::Str(Some(b"hello".to_vec()))]), b"he".to_vec());
    assert_eq!(fmt("%s", &[FmtArg::Str(Some(b"ab\0cd".to_vec()))]), b"ab".to_vec());
    assert_eq!(fmt("%s", &[FmtArg::Str(None)]), b"(null)".to_vec());
    assert_eq!(fmt("%s", &[FmtArg::Str(Some(vec![0xE9]))]), vec![0xC3, 0xA9]);
    assert_eq!(fmt("%c", &[FmtArg::I32(65)]), b"A".to_vec());
    assert_eq!(fmt("%c", &[FmtArg::I32(0x1E9)]), vec![0xC3, 0xA9]);
    assert_eq!(fmt("%f", &[FmtArg::Text(b"3.14".to_vec())]), b"3.14".to_vec());
}

#[test]
fn format_special_directives() {
    assert_eq!(fmt("100%%", &[]), b"100%".to_vec());
    assert_eq!(fmt("%q", &[]), b"%q".to_vec());
    assert_eq!(fmt("%lq", &[]), b"%lq".to_vec());
    assert_eq!(fmt("%", &[]), vec![b'%', 0]);
    assert_eq!(fmt("a%l", &[]), vec![b'a', b'%', b'l', 0]);
    assert_eq!(fmt("caf\u{e9}", &[]), vec![b'c', b'a', b'f', 0xC3, 0x83, 0xC2, 0xA9]);
    assert_eq!(fmt("x=%d, y=%u!", &[FmtArg::I32(-1), FmtArg::U32(2)]), b"x=-1, y=2!".to_vec());
}

#[test]
fn plain_format_is_copied() {
    let s = "no conversions here, just text.";
    assert_eq!(fmt(s, &[]), s.as_bytes().to_vec());
    assert_eq!(fmt(s, &[FmtArg::I32(3)]), s.as_bytes().to_vec());
}

#[test]
fn directives_are_parsed_in_steps() {
    let f = b"a%.12lu%%";
    assert_eq!(next_directive(f, 0), Some((Directive::Literal(b'a'), 1)));
    assert_eq!(
        next_directive(f, 1),
        Some((Directive::Convert { kind: ArgKind::ULong, precision: Some(12) }, 7))
    );
    assert_eq!(next_directive(f, 7), Some((Directive::Percent, 9)));
    assert_eq!(next_directive(f, 9), None);
    assert_eq!(next_directive(b"%.x", 0), Some((Directive::Convert { kind: ArgKind::Hex, precision: Some(0) }, 3)));
}

#[test]
fn argument_types_are_checked() {
    assert!(format_args_fit(b"%d %s", &[FmtArg::I32(1), FmtArg::Str(None)]));
    assert!(!format_args_fit(b"%d %s", &[FmtArg::I32(1)]));
    assert!(!format_args_fit(b"%d", &[FmtArg::U32(1)]));
    assert!(format_args_fit(b"%%", &[]));
}

#[test]
fn snprintf_truncates_and_terminates() {
    let mut buf = [0xAAu8; 8];
    let n = vsnprintf(&mut buf, 5, b"hello world", &[]);
    assert_eq!(n, 4);
    assert_eq!(buf, [b'h', b'e', b'l', b'l', 0, 0xAA, 0xAA, 0xAA]);
    let mut buf = [0xAAu8; 8];
    let n = snprintf(&mut buf, 8, b"%d!", &[FmtArg::I32(42)]);
    assert_eq!(n, 3);
    assert_eq!(&buf[..4], b"42!\0");
    assert_eq!(buf[4], 0xAA);
    let mut buf = [0xAAu8; 2];
    assert_eq!(snprintf(&mut buf, 0, b"x", &[]), -1);
    assert_eq!(buf, [0xAA, 0xAA]);
    assert_eq!(snprintf(&mut buf, 1, b"xyz", &[]), 0);
    assert_eq!(buf, [0, 0xAA]);
}
