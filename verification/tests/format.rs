//! Numbers, sizes and paths as text.

use vc_reader::format::{
    decimal_text, hex_bytes, human_duration, human_size, push_left_aligned, push_right_aligned,
};
use vc_reader::path::{file_name, join_path, split_components, split_first, split_last};

#[test]
fn sizes_in_binary_units() {
    assert_eq!(human_size(0), "0 B");
    assert_eq!(human_size(1), "1 B");
    assert_eq!(human_size(1023), "1023 B");
    assert_eq!(human_size(1024), "1.0 KiB");
    assert_eq!(human_size(1536), "1.5 KiB");
    assert_eq!(human_size(1048575), "1024.0 KiB");
    assert_eq!(human_size(1048576), "1.0 MiB");
    assert_eq!(human_size(5 * 1024 * 1024 * 1024), "5.0 GiB");
    assert_eq!(human_size(1 << 40), "1.0 TiB");
    assert_eq!(human_size(1 << 50), "1.0 PiB");
    assert_eq!(human_size(u64::MAX), "16384.0 PiB");
}

#[test]
fn halves_of_a_tenth_go_to_even() {
    // 1.25 and 1.75 KiB lie halfway between two tenths.
    assert_eq!(human_size(1280), "1.2 KiB");
    assert_eq!(human_size(1792), "1.8 KiB");
}

/// The size by floating point.
fn size_by_float(bytes: u64) -> String {
    let units = ["B", "KiB", "MiB", "GiB", "TiB", "PiB"];
    let mut value = bytes as f64;
    let mut unit = 0;
    while value >= 1024.0 && unit < units.len() - 1 {
        value /= 1024.0;
        unit += 1;
    }
    if unit == 0 {
        format!("{bytes} B")
    } else {
        format!("{value:.1} {}", units[unit])
    }
}

#[test]
fn sizes_agree_with_floating_point() {
    let mut n: u64 = 1;
    for _ in 0..20_000 {
        assert_eq!(human_size(n), size_by_float(n), "{n}");
        // A multiplicative walk through all magnitudes.
        n = n.wrapping_mul(6364136223846793005).wrapping_add(1442695040888963407);
        let shift = n % 64;
        assert_eq!(human_size(n >> shift), size_by_float(n >> shift), "{}", n >> shift);
    }
    for k in 0..64u32 {
        for d in 0..4u64 {
            let n = (1u64 << k).wrapping_add(d).wrapping_sub(2);
            assert_eq!(human_size(n), size_by_float(n), "{n}");
        }
    }
    // Above 53 bits the count is rounded to even first.
    for n in [(1u64 << 53) + 1, (1 << 54) + 2, (1 << 54) + 6, (1 << 63) + 1024, u64::MAX - 1024] {
        assert_eq!(human_size(n), size_by_float(n), "{n}");
    }
}

#[test]
fn small_counts_are_exact() {
    // The largest count of 53 bits, in tenths of a PiB.
    assert_eq!(human_size((1 << 53) - 1), "8.0 PiB");
    assert_eq!(human_size((1 << 53) - 1), size_by_float((1 << 53) - 1));
}

#[test]
fn durations() {
    assert_eq!(human_duration(None), "--:--");
    assert_eq!(human_duration(Some(0)), "00:00");
    assert_eq!(human_duration(Some(59)), "00:59");
    assert_eq!(human_duration(Some(61)), "01:01");
    assert_eq!(human_duration(Some(6000)), "100:00");
}

#[test]
fn key_bytes() {
    assert_eq!(hex_bytes(&[]), "");
    assert_eq!(hex_bytes(&[0x0a]), "0a");
    assert_eq!(hex_bytes(&[0x00, 0xff, 0x1b]), "00 ff 1b");
}

#[test]
fn numbers_and_columns() {
    assert_eq!(decimal_text(0), "0");
    assert_eq!(decimal_text(1009), "1009");
    assert_eq!(decimal_text(u64::MAX), "18446744073709551615");
    let mut row = String::from("|");
    push_left_aligned(&mut row, "ab", 4);
    push_right_aligned(&mut row, "cd", 4, '.');
    push_left_aligned(&mut row, "longer", 4);
    push_right_aligned(&mut row, "longer", 4, '.');
    assert_eq!(row, "|ab  ..cdlongerlonger");
}

#[test]
fn columns_count_characters() {
    let mut row = String::new();
    push_left_aligned(&mut row, "äö", 4);
    assert_eq!(row, format!("{:<4}", "äö"));
}

#[test]
fn paths_split() {
    let last = |path: &str| split_last(path);
    assert_eq!(last("a/b/c"), ("a/b".to_string(), "c".to_string()));
    assert_eq!(last("c"), (String::new(), "c".to_string()));
    assert_eq!(last("a/"), ("a".to_string(), String::new()));
    assert_eq!(last("/c"), (String::new(), "c".to_string()));
    assert_eq!(last(""), (String::new(), String::new()));
    assert_eq!(split_first("a/b/c"), ("a".to_string(), "b/c".to_string()));
    assert_eq!(split_first("a"), ("a".to_string(), String::new()));
    assert_eq!(split_first("a/"), ("a".to_string(), String::new()));
    assert_eq!(split_first("/a"), (String::new(), "a".to_string()));
    for path in ["a/b/c", "", "/", "a//b", "ü/ß/", "x"] {
        let parts: Vec<String> = path.split('/').map(|part| part.to_string()).collect();
        assert_eq!(split_components(path), parts, "{path}");
    }
}

#[test]
fn path_parts_make_the_path() {
    for path in ["a/b/c", "a", "a//b", "/a", "a/"] {
        let (parent, name) = split_last(path);
        if path.contains('/') {
            assert_eq!(format!("{parent}/{name}"), path);
        } else {
            assert_eq!(name, path);
        }
        assert!(!name.contains('/'));
    }
}

#[test]
fn output_paths_join() {
    for (base, relative) in
        [("a", "b/c"), ("a/", "b"), ("", "b"), ("a", "/b"), ("a", ""), ("/", "b"), ("", "")]
    {
        let joined = std::path::Path::new(base).join(relative);
        assert_eq!(join_path(base, relative), joined.to_str().unwrap(), "{base} {relative}");
    }
}

#[test]
fn output_paths_have_names() {
    for path in ["a/b", "b", "a/b/", "a/b/.", "a/..", "..", "/", "", "a/./b//", "a/b/./"] {
        let out = std::path::Path::new(path);
        let name = match out.file_name() {
            Some(name) => name.to_string_lossy().into_owned(),
            None => out.to_string_lossy().into_owned(),
        };
        assert_eq!(file_name(path), name, "{path}");
    }
}
