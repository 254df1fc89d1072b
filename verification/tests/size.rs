use glare::package::{format_bytes, parse_size_to_bytes};

fn float_size(s: &str) -> u64 {
    let parts: Vec<&str> = s.trim().split_whitespace().collect();
    if parts.len() != 2 {
        return 0;
    }
    let value: f64 = parts[0].parse().unwrap_or(0.0);
    let multiplier: f64 = match parts[1] {
        "B" => 1.0,
        "KiB" => 1024.0,
        "MiB" => 1024.0 * 1024.0,
        "GiB" => 1024.0 * 1024.0 * 1024.0,
        "TiB" => 1024.0 * 1024.0 * 1024.0 * 1024.0,
        _ => 0.0,
    };
    (value * multiplier) as u64
}

fn float_format(bytes: u64) -> String {
    const KIB: u64 = 1024;
    const MIB: u64 = 1024 * 1024;
    const GIB: u64 = 1024 * 1024 * 1024;
    if bytes >= GIB {
        format!("{:.2} GiB", bytes as f64 / GIB as f64)
    } else if bytes >= MIB {
        format!("{:.2} MiB", bytes as f64 / MIB as f64)
    } else if bytes >= KIB {
        format!("{:.2} KiB", bytes as f64 / KIB as f64)
    } else {
        format!("{} B", bytes)
    }
}

#[test]
fn parses_pacman_sizes() {
    assert_eq!(parse_size_to_bytes("5.86 MiB"), 6144655);
    assert_eq!(parse_size_to_bytes("123.45 KiB"), 126412);
    assert_eq!(parse_size_to_bytes("0.00 B"), 0);
    assert_eq!(parse_size_to_bytes("512.00 B"), 512);
    assert_eq!(parse_size_to_bytes("1.00 GiB"), 1073741824);
    assert_eq!(parse_size_to_bytes("2.50 TiB"), 2748779069440);
}

#[test]
fn rejects_malformed_sizes() {
    assert_eq!(parse_size_to_bytes(""), 0);
    assert_eq!(parse_size_to_bytes("5.86"), 0);
    assert_eq!(parse_size_to_bytes("5.86 MiB extra"), 0);
    assert_eq!(parse_size_to_bytes("5.86 MB"), 0);
    assert_eq!(parse_size_to_bytes("abc KiB"), 0);
    assert_eq!(parse_size_to_bytes("-3 KiB"), 0);
    assert_eq!(parse_size_to_bytes("nan KiB"), 0);
    assert_eq!(parse_size_to_bytes("inf KiB"), u64::MAX);
    assert_eq!(parse_size_to_bytes("-Infinity B"), 0);
    assert_eq!(parse_size_to_bytes("1e30 B"), u64::MAX);
}

#[test]
fn size_parsing_agrees_with_floats() {
    let cases = [
        "5.86 MiB", "  7 KiB  ", "1.5e3 B", "1E-2 KiB", ".5 KiB", "5. KiB", "+4 MiB", "1e B",
        "0.1 B", "0.999 KiB", "12345.678 GiB", "3.14159 TiB", "1.0e2 MiB", "INF B", "NaN MiB",
        "- B", "+ B", "1.2.3 B", "0x10 B", "42 kib", "16777216 TiB", "9.99 B", "1e-400 TiB",
        "1e400 B", "100 B", "0.5 B", "1.75 KiB", "999.99 MiB",
    ];
    for c in cases.iter() {
        assert_eq!(parse_size_to_bytes(c), float_size(c), "size {:?}", c);
    }
}

#[test]
fn formats_sizes() {
    assert_eq!(format_bytes(0), "0 B");
    assert_eq!(format_bytes(1023), "1023 B");
    assert_eq!(format_bytes(1024), "1.00 KiB");
    assert_eq!(format_bytes(6144655), "5.86 MiB");
    assert_eq!(format_bytes(1073741824), "1.00 GiB");
}

#[test]
fn formatting_agrees_with_floats() {
    let mut values: Vec<u64> = vec![
        1024, 1152, 1160, 1536, 1048576, 1049600, 1053696, 5 * 1073741824 + 1,
        u64::MAX, u64::MAX - 1, 1 << 53, (1 << 53) + 1, (1 << 54) + 3, 123456789, 987654321012,
    ];
    let mut x: u64 = 1;
    for _ in 0..2000 {
        x = x.wrapping_mul(6364136223846793005).wrapping_add(1442695040888963407);
        values.push(x >> (x % 50));
        values.push(1024 + (x % 4096) * 8);
    }
    for k in 0..4096u64 {
        values.push(1024 + k);
        values.push(1048576 + k * 256);
    }
    for v in values {
        assert_eq!(format_bytes(v), float_format(v), "bytes {}", v);
    }
}

#[test]
fn small_sizes_read_back() {
    for b in 0..1024u64 {
        assert_eq!(parse_size_to_bytes(&format_bytes(b)), b);
    }
    assert_eq!(format_bytes(1023), "1023 B");
    assert_eq!(format_bytes(1024), "1.00 KiB");
}

#[test]
fn numbers_round_to_the_nearest_f64_before_scaling() {
    assert_eq!(parse_size_to_bytes("9007199254740993 B"), 9007199254740992);
    assert_eq!(parse_size_to_bytes("0.99999999999999999 B"), 1);
    assert_eq!(parse_size_to_bytes("0.9999999999999999 B"), 0);
    assert_eq!(parse_size_to_bytes("  2   KiB "), 2048);
    assert_eq!(parse_size_to_bytes("-1 KiB"), 0);
    assert_eq!(parse_size_to_bytes("18446744073709551615 B"), u64::MAX);
    assert_eq!(parse_size_to_bytes("18446744073709550000 B"), 18446744073709549568);
    assert_eq!(parse_size_to_bytes("1e-400 TiB"), 0);
    assert_eq!(parse_size_to_bytes("1e400 B"), u64::MAX);
    let cases = [
        "9007199254740993 B",
        "9007199254740995 B",
        "9007199254740994.5 B",
        "4503599627370495.5 B",
        "4503599627370496.5 B",
        "0.99999999999999994 B",
        "0.999999999999999944488848768742172978818416595458984375 B",
        "0.99999999999999995 B",
        "1.9999999999999999 B",
        "123456789.123456789 KiB",
        "8796093022207.99999 MiB",
        "17592186044415.9999999 MiB",
        "16777215.9999999999 GiB",
        "16777215.99999999999 TiB",
        "3.0000000000000004 B",
        "2.9999999999999999999 B",
        "12345678901234567890 B",
        "1.8446744073709552e19 B",
        "1.8446744073709551e19 B",
        "0.5e-3 MiB",
        "5.86 MiB",
        "370.45 KiB",
        "1e-320 TiB",
    ];
    for c in cases {
        assert_eq!(parse_size_to_bytes(c), float_size(c), "{}", c);
    }
}

#[test]
fn printed_sizes_read_back_within_rounding() {
    let mut samples: Vec<u64> = vec![1024, 1025, 1535, 1536, 6144655, 1048575, 1048576, 1073741823, 1073741824];
    samples.push((1u64 << 53) - 1);
    let mut x: u64 = 12345;
    for _ in 0..2000 {
        x = x.wrapping_mul(6364136223846793005).wrapping_add(1442695040888963407);
        samples.push(x >> (11 + (x % 40)));
    }
    for b in samples {
        if b >= 1u64 << 53 {
            continue;
        }
        let r = parse_size_to_bytes(&format_bytes(b)) as i128;
        let u: i128 = if b >= 1 << 30 {
            1 << 30
        } else if b >= 1 << 20 {
            1 << 20
        } else if b >= 1 << 10 {
            1 << 10
        } else {
            1
        };
        let diff = (r - b as i128).abs();
        assert!(200 * diff <= u + 400, "{} read back as {}", b, r);
    }
}
