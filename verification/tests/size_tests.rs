use ls_plus::size_utils::HumanSize;

// The scaling in double precision that the integer arithmetic stands for.
fn scaled_in_doubles(bytes: u64) -> String {
    let units = ["B", "KB", "MB", "GB", "TB", "PB"];
    let mut size = bytes as f64;
    let mut unit = 0;
    while size >= 1024.0 && unit < units.len() - 1 {
        size /= 1024.0;
        unit += 1;
    }
    if unit == 0 {
        format!("{} {}", size as u64, units[unit])
    } else {
        format!("{:.1} {}", size, units[unit])
    }
}

#[test]
fn test_human_size_format() {
    assert_eq!(HumanSize(0).format(), "0 B");
    assert_eq!(HumanSize(1023).format(), "1023 B");
    assert_eq!(HumanSize(1024).format(), "1.0 KB");
    assert_eq!(HumanSize(1024 * 1024).format(), "1.0 MB");
    assert_eq!(HumanSize(1024 * 1024 * 1024).format(), "1.0 GB");
    assert_eq!(HumanSize(1024 * 1024 * 1024 * 1024).format(), "1.0 TB");
}

#[test]
fn human_size_petabytes_and_beyond() {
    assert_eq!(HumanSize(1u64 << 50).format(), "1.0 PB");
    assert_eq!(HumanSize(1u64 << 60).format(), "1024.0 PB");
    assert_eq!(HumanSize(u64::MAX).format(), "16384.0 PB");
}

#[test]
fn human_size_new_holds_the_count() {
    assert_eq!(HumanSize::new(1536).0, 1536);
    assert_eq!(HumanSize::new(1536).format(), "1.5 KB");
}

#[test]
fn human_size_rounds_to_one_decimal() {
    assert_eq!(HumanSize(1100).format(), "1.1 KB");
    assert_eq!(HumanSize(1126).format(), "1.1 KB");
    assert_eq!(HumanSize(1127).format(), "1.1 KB");
    assert_eq!(HumanSize(1179).format(), "1.2 KB");
}

#[test]
fn human_size_ties_go_to_the_even_tenth() {
    // 1280 / 1024 is 1.25 exactly, 1792 / 1024 is 1.75 exactly.
    assert_eq!(HumanSize(1280).format(), "1.2 KB");
    assert_eq!(HumanSize(1792).format(), "1.8 KB");
    // 1.05 and 1.15 are no binary fractions of 1024, so no ties.
    assert_eq!(HumanSize(1075).format(), "1.0 KB");
    assert_eq!(HumanSize(1076).format(), "1.1 KB");
    // Ties in the larger units: 2.25 MB down to the even 2, 2.75 MB up to the even 8.
    assert_eq!(HumanSize(2 * 1024 * 1024 + 256 * 1024).format(), "2.2 MB");
    assert_eq!(HumanSize(2 * 1024 * 1024 + 768 * 1024).format(), "2.8 MB");
    assert_eq!(HumanSize(5 * 1024 * 1024 * 1024 + 256 * 1024 * 1024).format(), "5.2 GB");
    // Just beside a tie the nearer tenth wins.
    assert_eq!(HumanSize(1279).format(), "1.2 KB");
    assert_eq!(HumanSize(1281).format(), "1.3 KB");
    assert_eq!(HumanSize(1791).format(), "1.7 KB");
    assert_eq!(HumanSize(1793).format(), "1.8 KB");
}

#[test]
fn human_size_unit_is_chosen_before_rounding() {
    assert_eq!(HumanSize(1024 * 1024 - 1).format(), "1024.0 KB");
    assert_eq!(HumanSize(1024 * 1024 * 1024 - 1).format(), "1024.0 MB");
}

#[test]
fn human_size_agrees_with_double_precision_on_small_sizes() {
    let mut n: u64 = 0;
    while n < 70_000 {
        assert_eq!(HumanSize(n).format(), scaled_in_doubles(n), "size {}", n);
        n += 1;
    }
}

#[test]
fn human_size_agrees_with_double_precision_around_powers_of_two() {
    let mut bit = 10;
    while bit < 64 {
        let base = 1u64 << bit;
        let mut offset: u64 = 0;
        while offset < 3000 {
            let below = base - offset;
            let above = base.wrapping_add(offset);
            assert_eq!(HumanSize(below).format(), scaled_in_doubles(below), "size {}", below);
            if above >= base {
                assert_eq!(HumanSize(above).format(), scaled_in_doubles(above), "size {}", above);
            }
            offset += 1;
        }
        bit += 1;
    }
}

#[test]
fn human_size_agrees_with_double_precision_on_scattered_sizes() {
    // A fixed multiplicative walk through the 64-bit range.
    let mut n: u64 = 0x9E37_79B9_7F4A_7C15;
    let mut count = 0;
    while count < 20_000 {
        assert_eq!(HumanSize(n).format(), scaled_in_doubles(n), "size {}", n);
        let shifted = n >> (count % 50);
        assert_eq!(HumanSize(shifted).format(), scaled_in_doubles(shifted), "size {}", shifted);
        n = n.wrapping_mul(6364136223846793005).wrapping_add(1442695040888963407);
        count += 1;
    }
}

#[test]
fn human_size_agrees_with_double_precision_at_the_top() {
    let mut offset: u64 = 0;
    while offset < 5000 {
        let n = u64::MAX - offset;
        assert_eq!(HumanSize(n).format(), scaled_in_doubles(n), "size {}", n);
        offset += 1;
    }
}
