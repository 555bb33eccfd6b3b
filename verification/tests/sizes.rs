use desdec_app::sizes::format_size;

#[test]
fn sizes_use_binary_units() {
    assert_eq!(format_size(512), "512 bytes");
    assert_eq!(format_size(1024), "1.00 KiB");
    assert_eq!(format_size(1024 * 1024), "1.00 MiB");
    assert_eq!(format_size(1536), "1.50 KiB");
}

/// The size reads the same as the floating-point division it stands for,
/// rounded the way a float is formatted to two decimals.
#[test]
fn a_size_reads_as_the_float_it_stands_for() {
    let float = |size: u64| -> String {
        const KIB: u64 = 1024;
        const MIB: u64 = KIB * 1024;
        if size >= MIB {
            format!("{:.2} MiB", size as f64 / MIB as f64)
        } else if size >= KIB {
            format!("{:.2} KiB", size as f64 / KIB as f64)
        } else {
            format!("{size} bytes")
        }
    };
    let mut sizes: Vec<u64> = vec![
        0,
        1,
        1023,
        1152,
        1029,
        1034,
        1048575,
        1048576 + 5242,
        3 * 1048576 + 131072,
        u64::MAX,
        u64::MAX - 1024,
        (1 << 53) + 1,
        (1 << 54) + 3,
        (1 << 60) + (1 << 7),
        9_007_199_254_740_993,
    ];
    for step in 0..4000u64 {
        sizes.push(1024 + step);
        sizes.push(1_048_576 + step * 1311);
        sizes.push(step.wrapping_mul(0x9e37_79b9_7f4a_7c15));
    }
    for size in sizes {
        assert_eq!(format_size(size), float(size), "{size}");
    }
}
