use count_ovro_files::pattern::find_match;
use count_ovro_files::pattern::is_ovro_ms_file;

#[test]
fn leaf_name_plain() {
    assert!(is_ovro_ms_file(b"20230101_120000_41MHz.ms", true));
}

#[test]
fn leaf_requires_directory() {
    assert!(!is_ovro_ms_file(b"20230101_120000_41MHz.ms", false));
}

#[test]
fn leaf_name_trailing_whitespace_trimmed() {
    assert!(is_ovro_ms_file(b"20230101_120000_41MHz.ms \t ", true));
}

#[test]
fn leaf_name_wrong_suffix() {
    assert!(!is_ovro_ms_file(b"20230101_130000_46MHt.ms", true));
    assert!(!is_ovro_ms_file(b"20230101_130000_46MHz.fits", true));
}

#[test]
fn leaf_name_suffix_alone() {
    assert!(is_ovro_ms_file(b"MHz.ms", true));
    assert!(!is_ovro_ms_file(b"Hz.ms", true));
}

#[test]
fn match_extracts_date_and_band() {
    assert_eq!(find_match(b"20230101_120000_41MHz.ms"), Some((20230101, 41)));
}

#[test]
fn match_keeps_leading_zeros() {
    assert_eq!(find_match(b"00230101_120000_05MHz.ms"), Some((230101, 5)));
}

#[test]
fn match_is_unanchored() {
    assert_eq!(
        find_match(b"archive-20230101_120000_41MHz.ms.bak"),
        Some((20230101, 41))
    );
}

#[test]
fn match_takes_leftmost_occurrence() {
    assert_eq!(
        find_match(b"11111111_222222_33MHz.ms44444444_555555_66MHz.ms"),
        Some((11111111, 33))
    );
}

#[test]
fn no_match_on_malformed_fields() {
    assert_eq!(find_match(b"20230101_130000_46MHt.ms"), None);
    assert_eq!(find_match(b"20230101x120000_41MHz.ms"), None);
    assert_eq!(find_match(b"20230101_120000_4aMHz.ms"), None);
    assert_eq!(find_match(b""), None);
}
