use mount_table::{next_mount, parse_line, Mount, MountsError, ParseError};

#[test]
fn display_form() {
    let mount = Mount {
        device: String::from("/dev/sda1"),
        mount_point: String::from("/mnt/disk"),
        file_system_type: String::from("ext4"),
        options: vec![String::from("ro"), String::from("nosuid")],
    };
    assert!(mount.to_string() == "/dev/sda1 on /mnt/disk type ext4 (ro,nosuid)");
}

#[test]
fn display_round_trip_fields() {
    let (_, m) = parse_line("/dev/sda1 /mnt/my\\040disk ext4 rw,relatime 0 0").unwrap();
    let shown = m.to_string();
    assert_eq!(shown, "/dev/sda1 on /mnt/my disk type ext4 (rw,relatime)");
    let (device, rest) = shown.split_once(" on ").unwrap();
    let (mount_point, rest) = rest.rsplit_once(" type ").unwrap();
    let (fs_type, rest) = rest.split_once(" (").unwrap();
    let opts: Vec<&str> = rest.strip_suffix(')').unwrap().split(',').collect();
    assert_eq!(device, m.device);
    assert_eq!(mount_point, m.mount_point);
    assert_eq!(fs_type, m.file_system_type);
    assert_eq!(opts, m.options);
}

#[test]
fn parse_error_message() {
    assert_eq!(ParseError::default().message(), "A parsing error occurred.");
}

#[test]
fn next_mount_end_of_source() {
    assert!(next_mount::<String>(None).is_none());
}

#[test]
fn next_mount_record() {
    let item = next_mount::<String>(Some(Ok(String::from("proc /proc proc rw 0 0"))));
    let m = item.unwrap().unwrap();
    assert_eq!(m.device, "proc");
    assert_eq!(m.mount_point, "/proc");
    assert_eq!(m.file_system_type, "proc");
    assert_eq!(m.options, vec![String::from("rw")]);
}

#[test]
fn next_mount_parse_error() {
    let item = next_mount::<String>(Some(Ok(String::from("proc /proc proc rw 0"))));
    assert!(matches!(item, Some(Err(MountsError::Parse(ParseError)))));
}

#[test]
fn next_mount_read_error() {
    let item = next_mount(Some(Err(String::from("disk gone"))));
    match item {
        Some(Err(MountsError::Read(e))) => assert_eq!(e, "disk gone"),
        _ => panic!("expected a read error"),
    }
}

#[test]
fn empty_source_yields_nothing() {
    let lines: Vec<Result<String, String>> = Vec::new();
    let mut source = lines.into_iter();
    let mut items = Vec::new();
    while let Some(item) = next_mount(source.next()) {
        items.push(item);
    }
    assert!(items.is_empty());
}

#[test]
fn owned_and_borrowed_sources_agree() {
    let lines = vec![
        String::from("proc /proc proc rw 0 0"),
        String::from("bad line"),
        String::from("tmpfs /tmp tmpfs rw,size=10\\040k 0 0"),
    ];
    let owned: Vec<String> = lines
        .clone()
        .into_iter()
        .map(|l| match next_mount::<String>(Some(Ok(l))).unwrap() {
            Ok(m) => m.to_string(),
            Err(_) => String::from("error"),
        })
        .collect();
    let borrowed: Vec<String> = lines
        .iter()
        .map(|l| match next_mount::<String>(Some(Ok(l.clone()))).unwrap() {
            Ok(m) => m.to_string(),
            Err(_) => String::from("error"),
        })
        .collect();
    assert_eq!(owned, borrowed);
    assert_eq!(owned[1], "error");
    assert_eq!(owned[2], "tmpfs on /tmp type tmpfs (rw,size=10 k)");
}
