use file_types::tar::utils::{split_path, to_field, to_fixed};

#[test]
pub fn test_mode() {
    assert_eq!(
        String::from_utf8(to_field(0o755, 8, " \0")).unwrap(),
        "000755 \0"
    );
}

#[test]
pub fn test_split_path_simple_case() {
    let result = split_path("short/path.txt");
    assert_eq!(result.prefix, "");
    assert_eq!(result.filename, "short/path.txt");
    assert!(!result.is_truncated);
}

#[test]
pub fn test_split_path_within_limits() {
    let long_path = "a".repeat(50) + "/" + &"b".repeat(50) + ".txt";
    let result = split_path(&long_path);
    assert_eq!(result.prefix, "a".repeat(50));
    assert_eq!(result.filename, "b".repeat(50) + ".txt");
    assert!(!result.is_truncated);
}

#[test]
pub fn test_split_path_filename_only_truncation() {
    let very_long_path = "a".repeat(200);
    let result = split_path(&very_long_path);
    assert_eq!(result.prefix, "");
    assert_eq!(result.filename, "a".repeat(100));
    assert!(result.is_truncated);
}

#[test]
pub fn test_split_path_skip_middle_segments() {
    let special_long_path = format!(
        "{}/{}/{}.txt",
        "a".repeat(140),
        "b".repeat(200),
        "c".repeat(90)
    );
    let result = split_path(&special_long_path);
    assert_eq!(result.prefix, "a".repeat(140));
    assert_eq!(result.filename, format!("{}.txt", "c".repeat(90)));
    assert!(result.is_truncated);
}

#[test]
pub fn test_split_path_skip_miltiple_segments() {
    let special_long_path = format!(
        "{}/{}/{}/{}/{}.txt",
        "a".repeat(90),
        "b".repeat(40),
        "c".repeat(60),
        "d".repeat(30),
        "e".repeat(60)
    );

    let result = split_path(&special_long_path);

    assert_eq!(
        result.prefix,
        format!("{}/{}", "a".repeat(90), "b".repeat(40))
    );
    assert_eq!(
        result.filename,
        format!("{}/{}.txt", "d".repeat(30), "e".repeat(60))
    );
    assert!(result.is_truncated);
}

#[test]
pub fn test_split_path_multibyte_character_handling() {
    let chinese_path = "中".repeat(33) + ".txt";
    let result = split_path(&chinese_path);
    assert_eq!(result.prefix, "");
    assert!(result.filename.len() <= 100);
    assert!(result.is_truncated);

    let path_with_chinese = "很长的路径名".repeat(10) + "/文件名.txt";
    let result = split_path(&path_with_chinese);
    assert!(result.prefix.len() <= 155);
    assert!(result.filename.len() <= 100);
}

#[test]
fn multibyte_truncation_keeps_whole_characters() {
    // 33 three-byte characters and ".txt" make 103 bytes: the cut keeps 100
    let result = split_path(&("中".repeat(33) + ".txt"));
    assert_eq!(result.filename, "中".repeat(33) + ".");
    // one more byte would split the 34th character: 102 bytes become 99
    let result = split_path(&("中".repeat(34)));
    assert_eq!(result.filename, "中".repeat(33));
    assert!(result.is_truncated);
}

#[test]
fn path_of_exactly_100_bytes_is_kept_whole() {
    let path = "x".repeat(100);
    let result = split_path(&path);
    assert_eq!(result.prefix, "");
    assert_eq!(result.filename, path);
    assert!(!result.is_truncated);
}

#[test]
fn untruncated_split_joins_back_to_the_path() {
    let path = format!("{}/{}/{}", "p".repeat(60), "q".repeat(60), "r".repeat(60));
    let result = split_path(&path);
    assert!(!result.is_truncated);
    assert_eq!(format!("{}/{}", result.prefix, result.filename), path);
    assert_eq!(result.prefix, format!("{}/{}", "p".repeat(60), "q".repeat(60)));
}

#[test]
fn tie_between_splits_prefers_the_shorter_prefix() {
    // fragments of 50, 49 and 49 bytes: both (1 prefix, 2 name) and
    // (2 prefix, 1 name) keep everything, the shorter prefix wins
    let path = format!("{}/{}/{}", "a".repeat(50), "b".repeat(49), "c".repeat(49));
    let result = split_path(&path);
    assert_eq!(result.prefix, "a".repeat(50));
    assert_eq!(result.filename, format!("{}/{}", "b".repeat(49), "c".repeat(49)));
    assert!(!result.is_truncated);
}

#[test]
fn last_fragment_too_long_is_cut_with_rest_as_prefix() {
    let path = format!("{}/{}", "d".repeat(20), "e".repeat(150));
    let result = split_path(&path);
    assert_eq!(result.prefix, "d".repeat(20));
    assert_eq!(result.filename, "e".repeat(100));
    assert!(result.is_truncated);
}

#[test]
fn last_fragment_too_long_and_prefix_too_long() {
    let path = format!("{}/{}", "d".repeat(160), "e".repeat(150));
    let result = split_path(&path);
    assert_eq!(result.prefix, "");
    assert_eq!(result.filename, "e".repeat(100));
    assert!(result.is_truncated);
}

#[test]
fn field_keeps_the_last_digits() {
    // 0o12345670 has eight octal digits; a field of 8 bytes with " \0" keeps six
    assert_eq!(to_field(0o12345670, 8, " \0"), b"345670 \0".to_vec());
    assert_eq!(to_field(0, 12, " "), b"00000000000 ".to_vec());
    assert_eq!(to_field(8, 4, "\0 "), b"10\0 ".to_vec());
    assert_eq!(to_field(u64::MAX, 24, ""), b"001777777777777777777777".to_vec());
}

#[test]
fn fixed_cuts_and_fills() {
    let a: [u8; 6] = to_fixed(b"ustar");
    assert_eq!(a, *b"ustar\0");
    let b: [u8; 3] = to_fixed(b"abcdef");
    assert_eq!(b, *b"abc");
}
