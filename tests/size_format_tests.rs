use disk_analyzer::size_format::human_size;

fn float_rendering(bytes: u64) -> String {
    let kb: u64 = 1024;
    let mb = kb * 1024;
    let gb = mb * 1024;
    if bytes >= gb {
        format!("{:.1} GB", bytes as f64 / gb as f64)
    } else if bytes >= mb {
        format!("{:.1} MB", bytes as f64 / mb as f64)
    } else if bytes >= kb {
        format!("{:.1} KB", bytes as f64 / kb as f64)
    } else {
        format!("{} B", bytes)
    }
}

#[test]
fn human_size_zero() {
    assert_eq!(human_size(0), "0 B");
}

#[test]
fn human_size_kilobytes() {
    assert_eq!(human_size(1536), "1.5 KB");
    assert_eq!(human_size(1024), "1.0 KB");
    assert_eq!(human_size(1023), "1023 B");
}

#[test]
fn human_size_gigabytes() {
    assert_eq!(human_size(2684354560), "2.5 GB");
}

#[test]
fn human_size_unit_boundaries() {
    assert_eq!(human_size(1073741824), "1.0 GB");
    assert_eq!(human_size(1073741823), "1024.0 MB");
    assert_eq!(human_size(1048576), "1.0 MB");
    assert_eq!(human_size(1048575), "1024.0 KB");
}

#[test]
fn human_size_rounds_half_to_even() {
    assert_eq!(human_size(1280), "1.2 KB");
    assert_eq!(human_size(1382), "1.3 KB");
}

#[test]
fn human_size_largest() {
    assert_eq!(human_size(u64::MAX), "17179869184.0 GB");
}

#[test]
fn human_size_agrees_with_float_rendering() {
    let mut b: u64 = 0;
    while b < 5_000_000 {
        assert_eq!(human_size(b), float_rendering(b), "bytes = {}", b);
        b += 97;
    }
    let samples = [1280u64, 1331, 1587, 3_000_000_000, 123_456_789_012, 1 << 40, (1 << 45) + 12345];
    for s in samples {
        assert_eq!(human_size(s), float_rendering(s), "bytes = {}", s);
    }
}
