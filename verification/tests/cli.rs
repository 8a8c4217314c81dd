use psftool::cli::{parse_flag, parse_flag_u8};

fn args(v: &[&str]) -> Vec<String> {
    v.iter().map(|s| s.to_string()).collect()
}

#[test]
fn parse_flag_reads_value_after_flag() {
    let a = args(&["psftool", "--new", "--width", "16", "--height", "+32", "out.bmp"]);
    assert_eq!(parse_flag(&a, "--width", 8), 16);
    assert_eq!(parse_flag(&a, "--height", 16), 32);
    assert_eq!(parse_flag(&a, "--glyphs", 256), 256);
}

#[test]
fn parse_flag_falls_back_to_default() {
    let a = args(&["psftool", "--width", "wide", "--width", "12"]);
    // only the first occurrence counts
    assert_eq!(parse_flag(&a, "--width", 8), 8);
    let a = args(&["psftool", "--width"]);
    assert_eq!(parse_flag(&a, "--width", 8), 8);
    let a = args(&["psftool", "--glyphs", "4294967296"]);
    assert_eq!(parse_flag(&a, "--glyphs", 256), 256);
    let a = args(&["psftool", "--glyphs", "-1"]);
    assert_eq!(parse_flag(&a, "--glyphs", 256), 256);
}

#[test]
fn parse_flag_u8_range() {
    let a = args(&["psftool", "--version", "1"]);
    assert_eq!(parse_flag_u8(&a, "--version", 2), 1);
    let a = args(&["psftool", "--version", "256"]);
    assert_eq!(parse_flag_u8(&a, "--version", 2), 2);
}
