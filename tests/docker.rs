use sukkiri::allowlist::Allowlist;
use sukkiri::docker::{parse_docker_size, parse_image_line, parse_image_listing, parse_size_text, DockerScanner};
use sukkiri::model::{CategoryType, ScannedItem};

#[test]
fn docker_parse_docker_size_test() {
    assert_eq!(parse_docker_size("1KB"), 1024);
    assert_eq!(parse_docker_size("1MB"), 1_048_576);
    #[allow(clippy::cast_possible_truncation, clippy::cast_sign_loss)]
    let expected = (1.5 * 1_073_741_824.0) as u64;
    assert_eq!(parse_docker_size("1.5GB"), expected);
    assert_eq!(parse_docker_size("500B"), 500);
    assert_eq!(parse_docker_size("0B"), 0);
}

#[test]
fn scanner_parse_docker_size_test() {
    assert_eq!(parse_docker_size("1KB"), 1024);
    assert_eq!(parse_docker_size("1MB"), 1_048_576);
    #[allow(clippy::cast_possible_truncation, clippy::cast_sign_loss)]
    let expected = (1.5 * 1_073_741_824.0) as u64;
    assert_eq!(parse_docker_size("1.5GB"), expected);
    assert_eq!(parse_docker_size("500B"), 500);
    assert_eq!(parse_docker_size("0B"), 0);
}

#[test]
fn size_units_ignore_case_and_whitespace() {
    assert_eq!(parse_docker_size("  2kb \n"), 2048);
    assert_eq!(parse_docker_size("1.5gB"), 1_610_612_736);
    assert_eq!(parse_docker_size("3mb"), 3 * 1_048_576);
    assert_eq!(parse_docker_size("7b"), 7);
}

#[test]
fn byte_amounts_are_decimals_too() {
    assert_eq!(parse_docker_size("1.5B"), 1);
    assert_eq!(parse_docker_size("0.9B"), 0);
    assert_eq!(parse_docker_size("99999999999999999999B"), u64::MAX);
}

#[test]
fn size_fractions_round_toward_zero() {
    assert_eq!(parse_docker_size("0.1KB"), 102);
    assert_eq!(parse_docker_size("244.7MB"), 256_586_547);
    assert_eq!(parse_docker_size(".5KB"), 512);
    assert_eq!(parse_docker_size("1.KB"), 1024);
    assert_eq!(parse_docker_size("+2KB"), 2048);
}

#[test]
fn unreadable_sizes_are_zero() {
    assert_eq!(parse_docker_size(""), 0);
    assert_eq!(parse_docker_size("KB"), 0);
    assert_eq!(parse_docker_size("B"), 0);
    assert_eq!(parse_docker_size("abc"), 0);
    assert_eq!(parse_docker_size("12"), 0);
    assert_eq!(parse_docker_size("1.2.3MB"), 0);
    assert_eq!(parse_docker_size("-1KB"), 0);
    assert_eq!(parse_docker_size("1TB"), 0);
}

#[test]
fn huge_sizes_saturate() {
    assert_eq!(parse_docker_size("99999999999999999999GB"), u64::MAX);
    assert_eq!(parse_size_text("18446744073709551615B"), u64::MAX);
}

#[test]
fn size_text_is_not_trimmed_again() {
    assert_eq!(parse_size_text(" 1KB"), 0);
    assert_eq!(parse_size_text("1KB"), 1024);
}

#[test]
fn image_line_gives_virtual_path_and_size() {
    let item = parse_image_line("abc123|1.5GB|myrepo:latest", 42).expect("an image");
    assert_eq!(item.path, "docker://abc123/myrepo:latest");
    assert_eq!(item.size, 1_610_612_736);
    assert_eq!(item.modified, 42);
}

#[test]
fn image_line_without_name_is_none_named() {
    let item = parse_image_line("abc123|500B", 0).expect("an image");
    assert_eq!(item.path, "docker://abc123/<none>");
    assert_eq!(item.size, 500);
    let extra = parse_image_line("id|1KB|repo:tag|ignored", 0).expect("an image");
    assert_eq!(extra.path, "docker://id/repo:tag");
}

#[test]
fn line_without_separator_is_no_image() {
    assert!(parse_image_line("no separators here", 0).is_none());
    assert!(parse_image_line("", 0).is_none());
}

#[test]
fn listing_keeps_image_lines_in_order() {
    let out = "a1|1KB|<none>:<none>\ngarbage\nb2|2MB|repo:tag\n";
    let items = parse_image_listing(out, 7);
    assert_eq!(items.len(), 2);
    assert_eq!(items[0].path, "docker://a1/<none>:<none>");
    assert_eq!(items[0].size, 1024);
    assert_eq!(items[1].path, "docker://b2/repo:tag");
    assert_eq!(items[1].size, 2 * 1_048_576);
    assert!(parse_image_listing("", 0).is_empty());
}

#[test]
fn docker_scan_filters_allowlisted_images_and_sorts() {
    let images = vec![
        ScannedItem { path: "docker://a/x".to_string(), size: 10, modified: 0 },
        ScannedItem { path: "docker://b/y".to_string(), size: 30, modified: 0 },
        ScannedItem { path: "docker://c/z".to_string(), size: 20, modified: 0 },
    ];
    let allowlist = Allowlist::new(vec!["docker://b".to_string()]);
    let scanner = DockerScanner;
    let r = scanner.scan(images, &allowlist);
    assert_eq!(r.category, CategoryType::DockerImages);
    assert_eq!(r.total_size, 30);
    assert_eq!(r.items.len(), 2);
    assert_eq!(r.items[0].size, 20);
    assert_eq!(r.items[1].size, 10);
    assert_eq!(r.root_path, "Docker");
    assert_eq!(r.description, "Unused Docker images (dangling=true)");
    assert!(!r.is_selected);
}

#[test]
fn docker_scan_without_runtime_is_empty() {
    let r = DockerScanner.scan(parse_image_listing("", 0), &Allowlist::new(vec![]));
    assert_eq!(r.total_size, 0);
    assert!(r.items.is_empty());
}

#[test]
fn sizes_with_an_exponent() {
    assert_eq!(parse_docker_size("1e3KB"), 1_024_000);
    assert_eq!(parse_docker_size("1E3kb"), 1_024_000);
    assert_eq!(parse_docker_size("2.5e-1KB"), 256);
    assert_eq!(parse_docker_size("1e+2B"), 100);
    assert_eq!(parse_docker_size("1.5e1B"), 15);
    assert_eq!(parse_docker_size("15e-1B"), 1);
    assert_eq!(parse_docker_size(".5e1MB"), 5 * 1_048_576);
    assert_eq!(parse_docker_size("1e400GB"), u64::MAX);
    assert_eq!(parse_docker_size("1e-400GB"), 0);
    assert_eq!(parse_docker_size("0e999999999999999999999999999999999999999999GB"), 0);
    assert_eq!(parse_docker_size("7e999999999999999999999999999999999999999999B"), u64::MAX);
    assert_eq!(parse_docker_size("7e-999999999999999999999999999999999999999999B"), 0);
    assert_eq!(parse_docker_size("1e19B"), 10_000_000_000_000_000_000);
    assert_eq!(parse_docker_size("1e20B"), u64::MAX);
}

#[test]
fn malformed_exponents_are_zero() {
    assert_eq!(parse_docker_size("1eKB"), 0);
    assert_eq!(parse_docker_size("1e+KB"), 0);
    assert_eq!(parse_docker_size("e3KB"), 0);
    assert_eq!(parse_docker_size("1e3.5KB"), 0);
    assert_eq!(parse_docker_size("1e3e1KB"), 0);
}

#[test]
fn exponent_results_match_float_parsing() {
    for (text, m) in [("1.25e2", 1024u64), ("3e-2", 1_048_576), ("12.5e1", 1), ("4.75e0", 1_073_741_824)] {
        let v: f64 = text.parse().unwrap();
        #[allow(clippy::cast_possible_truncation, clippy::cast_sign_loss)]
        let expected = (v * m as f64) as u64;
        let unit = match m {
            1 => "B",
            1024 => "KB",
            1_048_576 => "MB",
            _ => "GB",
        };
        assert_eq!(parse_docker_size(&format!("{text}{unit}")), expected, "{text}{unit}");
    }
}

#[test]
fn unicode_white_space_is_trimmed() {
    assert_eq!(parse_docker_size("\u{3000}1KB\u{a0}"), 1024);
    assert_eq!(parse_docker_size("\u{2003}\t2MB\u{85}"), 2 * 1_048_576);
}
