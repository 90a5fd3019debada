use mount_table::{
    escaped_backslash, escaped_space, mount_opts, not_whitespace, parse_line,
    parse_line_alternate, transform_escaped, Mount, ParseError,
};

fn strings(v: &[&str]) -> Vec<String> {
    v.iter().map(|s| s.to_string()).collect()
}

// Extracts a string that does not contain whitespace, i.e. space or tab.
#[test]
fn test_not_whitespace() {
    assert_eq!(not_whitespace("abcd efg"), Ok((" efg", "abcd")));
    assert_eq!(not_whitespace("abcd\tefg"), Ok(("\tefg", "abcd")));
    assert_eq!(not_whitespace(" abcdefg"), Err(ParseError));
}

// Converts 040 to a space. Does not recognise a literal space.
#[test]
fn test_escaped_space() {
    assert_eq!(escaped_space("040"), Ok(("", " ")));
    assert_eq!(escaped_space(" "), Err(ParseError));
}

// Converts the character \ to the string \.
#[test]
fn test_escaped_backslash() {
    assert_eq!(escaped_backslash("\\"), Ok(("", "\\")));
    assert_eq!(escaped_backslash("not a backslash"), Err(ParseError));
}

// Each escape sequence becomes the character it stands for.
#[test]
fn test_transform_escaped() {
    assert_eq!(
        transform_escaped("abc\\040def\\\\g\\040h"),
        Ok(("", String::from("abc def\\g h")))
    );
    assert_eq!(transform_escaped("\\bad"), Err(ParseError));
}

// A comma separated list of mount options, which may contain spaces.
#[test]
fn test_mount_opts() {
    assert_eq!(
        mount_opts("a,bc,d\\040e"),
        Ok(("", vec!["a".to_string(), "bc".to_string(), "d e".to_string()]))
    );
}

#[test]
fn test_parse_line() {
    let mount1 = Mount {
        device: "device".to_string(),
        mount_point: "mount_point".to_string(),
        file_system_type: "file_system_type".to_string(),
        options: vec!["options".to_string(), "a".to_string(), "b=c".to_string(), "d e".to_string()],
    };
    let (_, mount2) =
        parse_line("device mount_point file_system_type options,a,b=c,d\\040e 0 0").unwrap();
    assert_eq!(mount1.device, mount2.device);
    assert_eq!(mount1.mount_point, mount2.mount_point);
    assert_eq!(mount1.file_system_type, mount2.file_system_type);
    assert_eq!(mount1.options, mount2.options);
}

#[test]
fn test_parse_line_alternate() {
    let mount1 = Mount {
        device: "device".to_string(),
        mount_point: "mount_point".to_string(),
        file_system_type: "file_system_type".to_string(),
        options: vec!["options".to_string(), "a".to_string(), "b=c".to_string(), "d e".to_string()],
    };
    let (_, mount2) =
        parse_line_alternate("device mount_point file_system_type options,a,b=c,d\\040e 0 0")
            .unwrap();
    assert_eq!(mount1.device, mount2.device);
    assert_eq!(mount1.mount_point, mount2.mount_point);
    assert_eq!(mount1.file_system_type, mount2.file_system_type);
    assert_eq!(mount1.options, mount2.options);
}

#[test]
fn decode_escaped_space_in_word() {
    assert_eq!(transform_escaped("abc\\040def"), Ok(("", String::from("abc def"))));
}

#[test]
fn decode_double_backslash() {
    assert_eq!(transform_escaped("a\\\\b"), Ok(("", String::from("a\\b"))));
}

#[test]
fn decode_plain_text_unchanged() {
    assert_eq!(transform_escaped("/dev/sda1"), Ok(("", String::from("/dev/sda1"))));
}

#[test]
fn decode_empty() {
    assert_eq!(transform_escaped(""), Ok(("", String::new())));
}

#[test]
fn decode_only_escapes() {
    assert_eq!(transform_escaped("\\040\\040"), Ok(("", String::from("  "))));
    assert_eq!(transform_escaped("\\\\\\040"), Ok(("", String::from("\\ "))));
}

#[test]
fn decode_trailing_backslash_fails() {
    assert_eq!(transform_escaped("abc\\"), Err(ParseError));
    assert_eq!(transform_escaped("abc\\04"), Err(ParseError));
    assert_eq!(transform_escaped("abc\\041"), Err(ParseError));
}

#[test]
fn options_single_token() {
    assert_eq!(mount_opts("rw"), Ok(("", strings(&["rw"]))));
}

#[test]
fn options_stop_at_whitespace() {
    assert_eq!(mount_opts("rw,noatime 0 0"), Ok((" 0 0", strings(&["rw", "noatime"]))));
}

#[test]
fn options_keep_order_and_duplicates() {
    assert_eq!(mount_opts("ro,rw,ro"), Ok(("", strings(&["ro", "rw", "ro"]))));
}

#[test]
fn options_bad_escape_fails_whole_list() {
    assert_eq!(mount_opts("a,b\\x,c"), Err(ParseError));
}

#[test]
fn options_empty_piece_fails() {
    assert_eq!(mount_opts("a,,b"), Err(ParseError));
    assert_eq!(mount_opts(",a"), Err(ParseError));
    assert_eq!(mount_opts("a,"), Err(ParseError));
    assert_eq!(mount_opts(" a"), Err(ParseError));
    assert_eq!(mount_opts(""), Err(ParseError));
}

#[test]
fn line_fields_exact() {
    let (rest, m) = parse_line("device mount_point fs_type optA,optB 0 0").unwrap();
    assert_eq!(rest, "");
    assert_eq!(m.device, "device");
    assert_eq!(m.mount_point, "mount_point");
    assert_eq!(m.file_system_type, "fs_type");
    assert_eq!(m.options, strings(&["optA", "optB"]));
}

#[test]
fn line_tabs_and_trailing_whitespace() {
    let (_, m) = parse_line("/dev/sda1\t/mnt/my\\040disk  ext4 rw,relatime 0\t0 \t").unwrap();
    assert_eq!(m.device, "/dev/sda1");
    assert_eq!(m.mount_point, "/mnt/my disk");
    assert_eq!(m.file_system_type, "ext4");
    assert_eq!(m.options, strings(&["rw", "relatime"]));
}

#[test]
fn line_fs_type_not_decoded() {
    let (_, m) = parse_line("a b x\\040y rw 0 0").unwrap();
    assert_eq!(m.file_system_type, "x\\040y");
}

#[test]
fn line_trailing_content_fails() {
    assert!(parse_line("/dev/sda1 /mnt/disk ext4 defaults 0 0 extra").is_err());
    assert!(parse_line("/dev/sda1 /mnt/disk ext4 defaults 0 0x").is_err());
    assert!(parse_line("/dev/sda1 /mnt/disk ext4 defaults 0 00").is_err());
}

#[test]
fn line_missing_zero_fails() {
    assert!(parse_line("/dev/sda1 /mnt/disk ext4 defaults 0").is_err());
    assert!(parse_line("/dev/sda1 /mnt/disk ext4 defaults 0 ").is_err());
    assert!(parse_line("/dev/sda1 /mnt/disk ext4 defaults").is_err());
    assert!(parse_line("/dev/sda1 /mnt/disk ext4 defaults 1 0").is_err());
    assert!(parse_line("/dev/sda1 /mnt/disk ext4 defaults 0 1").is_err());
}

#[test]
fn line_malformed_fields_fail() {
    assert!(parse_line("").is_err());
    assert!(parse_line(" a b c d 0 0").is_err());
    assert!(parse_line("a\\x b c d 0 0").is_err());
    assert!(parse_line("a b\\x c d 0 0").is_err());
    assert!(parse_line("a b c d,\\x 0 0").is_err());
    assert!(parse_line("a b c 0 0").is_err());
}

#[test]
fn line_alternate_agrees() {
    let line = "sysfs /sys sysfs rw,nosuid,nodev,noexec,relatime 0 0";
    let (_, a) = parse_line(line).unwrap();
    let (_, b) = parse_line_alternate(line).unwrap();
    assert_eq!(a.device, b.device);
    assert_eq!(a.mount_point, b.mount_point);
    assert_eq!(a.file_system_type, b.file_system_type);
    assert_eq!(a.options, b.options);
    assert!(parse_line_alternate("a b c d 0 0 e").is_err());
}
