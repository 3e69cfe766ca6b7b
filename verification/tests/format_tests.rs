use scripted_prompt_lib::format::{format_error, format_file_size};

fn float_size(bytes: u64) -> String {
    if bytes < 1024 {
        format!("{} B", bytes)
    } else if bytes < 1024 * 1024 {
        format!("{:.1} KB", bytes as f64 / 1024.0)
    } else if bytes < 1024 * 1024 * 1024 {
        format!("{:.1} MB", bytes as f64 / (1024.0 * 1024.0))
    } else {
        format!("{:.1} GB", bytes as f64 / (1024.0 * 1024.0 * 1024.0))
    }
}

#[test]
fn file_sizes_exact_values() {
    assert_eq!(format_file_size(0), "0 B");
    assert_eq!(format_file_size(1023), "1023 B");
    assert_eq!(format_file_size(1024), "1.0 KB");
    assert_eq!(format_file_size(1536), "1.5 KB");
    assert_eq!(format_file_size(1024 * 1024), "1.0 MB");
    assert_eq!(format_file_size(5 * 1024 * 1024 * 1024), "5.0 GB");
}

#[test]
fn file_sizes_agree_with_float_formatting() {
    let mut samples: Vec<u64> = vec![
        1280, 1792, 1331, 1433, 10239, 1048575, 1048576, 1310720, 1835008, 1073741823, 1073741824,
        1342177280, 1879048192, u64::MAX, u64::MAX - 1024, (1u64 << 53) + 1, (1u64 << 60) + 12345,
        (1u64 << 63) + (1u64 << 10), 9_007_199_254_740_993, 123_456_789_012_345_678,
    ];
    let mut x: u64 = 0x9E37_79B9_7F4A_7C15;
    for _ in 0..20000 {
        x ^= x << 13;
        x ^= x >> 7;
        x ^= x << 17;
        samples.push(x >> (x % 60));
    }
    for k in 1024u64..6000 {
        samples.push(k);
    }
    for b in samples {
        assert_eq!(format_file_size(b), float_size(b), "bytes = {}", b);
    }
}

#[test]
fn error_chain_shows_at_most_six_messages() {
    let msgs: Vec<String> = (1..=8).map(|i| format!("e{i}")).collect();
    assert_eq!(
        format_error(&msgs),
        "e1\nCaused by: e2\nCaused by: e3\nCaused by: e4\nCaused by: e5\nCaused by: e6"
    );
    assert_eq!(format_error(&vec!["only".to_string()]), "only");
    assert_eq!(format_error(&vec![]), "");
}
