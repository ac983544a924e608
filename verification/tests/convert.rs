use hap_wasm::convert::{
    calculate_dimensions, calculate_dir_size, count_frames, dir_size_fits, format_bytes,
    parse_probe_line, parse_u32, IntError, ProbeError,
};
use hap_wasm::webgl::check_compressed_texture_support;

#[test]
fn dimensions_fit_the_width_then_the_height() {
    assert_eq!(calculate_dimensions(1920, 1080, Some(1280), None), (1280, 720));
    assert_eq!(calculate_dimensions(3840, 2160, Some(1920), Some(720)), (1280, 720));
    assert_eq!(calculate_dimensions(1080, 1920, None, Some(1280)), (720, 1280));
    assert_eq!(calculate_dimensions(1280, 720, Some(1920), Some(1080)), (1280, 720));
    assert_eq!(calculate_dimensions(1921, 1081, None, None), (1920, 1080));
    assert_eq!(calculate_dimensions(1000, 333, Some(500), None), (500, 166));
    assert_eq!(calculate_dimensions(0, 0, Some(0), Some(0)), (0, 0));
    assert_eq!(calculate_dimensions(u32::MAX, u32::MAX, Some(7), None), (6, 6));
    // 0.7 is just below 7/10 as an f32: 10 * 0.7 truncates to 6.
    assert_eq!(calculate_dimensions(10, 10, Some(7), None), (6, 6));
}

fn float_dimensions(
    orig_width: u32,
    orig_height: u32,
    max_width: Option<u32>,
    max_height: Option<u32>,
) -> (u32, u32) {
    let mut width = orig_width;
    let mut height = orig_height;
    if let Some(max_w) = max_width {
        if width > max_w {
            height = (height as f32 * (max_w as f32 / width as f32)) as u32;
            width = max_w;
        }
    }
    if let Some(max_h) = max_height {
        if height > max_h {
            width = (width as f32 * (max_h as f32 / height as f32)) as u32;
            height = max_h;
        }
    }
    width = (width / 2) * 2;
    height = (height / 2) * 2;
    (width, height)
}

#[test]
fn dimensions_match_float_scaling() {
    let mut cases: Vec<(u32, u32, Option<u32>, Option<u32>)> = vec![
        (10, 10, Some(7), None),
        (3, 3, Some(1), None),
        (33554432, 33554431, Some(33554431), None),
        (u32::MAX, u32::MAX, Some(u32::MAX - 1), Some(u32::MAX - 2)),
        (16777217, 16777215, Some(16777215), Some(3)),
        (1, 1, Some(0), Some(0)),
    ];
    let mut x: u64 = 0x2545_F491_4F6C_DD1D;
    let mut next = || {
        x ^= x << 13;
        x ^= x >> 7;
        x ^= x << 17;
        x
    };
    for k in 0..20000u32 {
        let bits = [8u32, 12, 16, 24, 32][(k % 5) as usize];
        let mask = if bits == 32 { u32::MAX } else { (1u32 << bits) - 1 };
        let w = next() as u32 & mask;
        let h = next() as u32 & mask;
        let mw = if k % 3 == 0 { None } else { Some(next() as u32 & mask) };
        let mh = if k % 4 == 0 { None } else { Some(next() as u32 & mask) };
        cases.push((w, h, mw, mh));
    }
    for (w, h, mw, mh) in cases {
        assert_eq!(
            calculate_dimensions(w, h, mw, mh),
            float_dimensions(w, h, mw, mh),
            "{} {} {:?} {:?}",
            w,
            h,
            mw,
            mh
        );
    }
}

#[test]
fn large_sides_can_grow_in_f32() {
    // 2^25 - 1 becomes 2^25 as an f32, and the ratio rounds to 1.
    assert_eq!(calculate_dimensions(33554432, 33554431, Some(33554431), None), (33554430, 33554432));
}

#[test]
fn dimensions_of_dimensions_are_the_same() {
    for (w, h, mw, mh) in [
        (1920u32, 1080u32, Some(1280u32), None),
        (4000, 3001, Some(999), Some(601)),
        (17, 3, None, Some(2)),
        (12345, 678, Some(4000), Some(100)),
        (16777216, 16777216, Some(1000), None),
        (16777216, 9999999, None, Some(16777215)),
        (16777216, 16777215, Some(16777215), None),
    ] {
        let once = calculate_dimensions(w, h, mw, mh);
        assert_eq!(calculate_dimensions(once.0, once.1, mw, mh), once);
        assert_eq!(once.0 % 2, 0);
        assert_eq!(once.1 % 2, 0);
    }
}

fn float_format(bytes: u64) -> String {
    const UNITS: &[&str] = &["B", "KB", "MB", "GB"];
    let mut size = bytes as f64;
    let mut unit_idx = 0;
    while size >= 1024.0 && unit_idx < UNITS.len() - 1 {
        size /= 1024.0;
        unit_idx += 1;
    }
    format!("{:.1} {}", size, UNITS[unit_idx])
}

#[test]
fn byte_counts_for_people() {
    assert_eq!(format_bytes(0), "0.0 B");
    assert_eq!(format_bytes(1023), "1023.0 B");
    assert_eq!(format_bytes(1024), "1.0 KB");
    assert_eq!(format_bytes(1536), "1.5 KB");
    assert_eq!(format_bytes(10 * 1024 * 1024), "10.0 MB");
    assert_eq!(format_bytes(3 * 1024 * 1024 * 1024 / 2), "1.5 GB");
    assert_eq!(format_bytes(5 * 1024 * 1024 * 1024 * 1024), "5120.0 GB");
}

#[test]
fn byte_counts_match_float_formatting() {
    let mut samples: Vec<u64> = vec![
        1280,
        1331,
        1126,
        1075,
        1024 * 1024 + 52429,
        u64::MAX,
        u64::MAX - 1,
        (1u64 << 53) + 1,
        (1u64 << 53) + 3,
        (1u64 << 60) + 12345,
    ];
    let mut x: u64 = 0x9E37_79B9_7F4A_7C15;
    for k in 0..2000u64 {
        x = x.wrapping_mul(6364136223846793005).wrapping_add(1442695040888963407);
        samples.push(x >> (k % 64));
        samples.push(k * 103);
        samples.push(k * 1024 / 20);
    }
    for b in samples {
        assert_eq!(format_bytes(b), float_format(b), "bytes = {}", b);
    }
}

#[test]
fn u32_fields_read_as_from_str_reads_them() {
    for text in [
        "0", "42", "+7", "+", "", "-1", "4294967295", "4294967296", "00012", "12a", "99999999999x",
        "1 2", "٣",
    ] {
        let ours = parse_u32(text);
        let std = text.parse::<u32>();
        match (ours, std) {
            (Ok(a), Ok(b)) => assert_eq!(a, b),
            (Err(IntError::Empty), Err(e)) => {
                assert_eq!(e.to_string(), "cannot parse integer from empty string")
            }
            (Err(IntError::InvalidDigit), Err(e)) => {
                assert_eq!(e.to_string(), "invalid digit found in string", "{}", text)
            }
            (Err(IntError::PosOverflow), Err(e)) => {
                assert_eq!(e.to_string(), "number too large to fit in target type", "{}", text)
            }
            (a, b) => panic!("{:?}: {:?} vs {:?}", text, a, b),
        }
    }
}

#[test]
fn decimal_text_reads_back() {
    for n in [0u32, 7, 10, 99, 1000, 65535, 429496729, 4294967289, u32::MAX] {
        assert_eq!(parse_u32(&n.to_string()), Ok(n));
    }
}

#[test]
fn probe_lines() {
    let p = parse_probe_line("1920,1080,30000/1001,10.010000\n").unwrap();
    assert_eq!((p.width, p.height), (1920, 1080));
    assert_eq!(p.frame_rate, "30000/1001");
    assert_eq!(p.duration, "10.010000");
    let p = parse_probe_line("  640,360,25/1,N/A,extra  ").unwrap();
    assert_eq!((p.width, p.height), (640, 360));
    assert_eq!(p.frame_rate, "25/1");
    assert_eq!(p.duration, "N/A");
    assert!(matches!(parse_probe_line("1920,1080,30/1"), Err(ProbeError::TooFewFields)));
    assert!(matches!(parse_probe_line(""), Err(ProbeError::TooFewFields)));
    assert!(matches!(
        parse_probe_line("wide,1080,30/1,1"),
        Err(ProbeError::BadWidth(IntError::InvalidDigit))
    ));
    assert!(matches!(
        parse_probe_line("1920,,30/1,1"),
        Err(ProbeError::BadHeight(IntError::Empty))
    ));
    let p = parse_probe_line("1,2,,").unwrap();
    assert_eq!(p.frame_rate, "");
    assert_eq!(p.duration, "");
}

#[test]
fn frame_files_are_counted_by_suffix() {
    let names: Vec<String> = ["frame_0001.webp", "frame_0002.png", "a.jpg", "b.jpeg", "notes.txt", "webp", ".webp"]
        .iter()
        .map(|s| s.to_string())
        .collect();
    assert_eq!(count_frames(&names), 4);
    assert_eq!(count_frames(&[]), 0);
}

#[test]
fn directory_sizes_add_up() {
    assert!(dir_size_fits(&[1, 2, 3]));
    assert_eq!(calculate_dir_size(&[1, 2, 3]), 6);
    assert_eq!(calculate_dir_size(&[]), 0);
    assert!(dir_size_fits(&[u64::MAX]));
    assert!(!dir_size_fits(&[u64::MAX, 1]));
}

#[test]
fn s3tc_support_is_found_in_the_extension_list() {
    let list = |names: &[Option<&str>]| -> Option<Vec<Option<String>>> {
        Some(names.iter().map(|n| n.map(|s| s.to_string())).collect())
    };
    assert!(check_compressed_texture_support(&list(&[
        Some("EXT_color_buffer_float"),
        Some("WEBGL_compressed_texture_s3tc"),
    ])));
    assert!(check_compressed_texture_support(&list(&[None, Some("MOZ_compressed_texture_s3tc_srgb")])));
    assert!(!check_compressed_texture_support(&list(&[Some("WEBGL_compressed_texture_etc"), None])));
    assert!(!check_compressed_texture_support(&list(&[])));
    assert!(!check_compressed_texture_support(&None));
}

#[test]
fn fitting_the_width_keeps_the_aspect_ratio() {
    let mut x: u64 = 12345;
    for _ in 0..5000 {
        x = x.wrapping_mul(6364136223846793005).wrapping_add(1442695040888963407);
        let w = ((x >> 33) % 16777216 + 2) as u32;
        let w = w.min(16777216);
        let h = ((x >> 7) % 16777216 + 1) as u32;
        let m = ((x >> 20) as u32) % (w - 1) + 1;
        let (rw, rh) = calculate_dimensions(w, h, Some(m), None);
        assert_eq!(rw, m / 2 * 2);
        let exact = h as u128 * m as u128;
        assert!(rh as u128 * w as u128 <= exact + 4 * w as u128);
        assert!(exact < (rh as u128 + 1) * w as u128 + 5 * w as u128);
    }
}
