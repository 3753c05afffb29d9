use blockdev::{
    normalize_mountpoints, size_from_number, size_from_text, BlockDevice, DeviceKind, JsonValue,
};

const G: u64 = 1024 * 1024 * 1024;

#[test]
fn size_894_3g_is_rounded_bytes() {
    // 894.3 * 1024^3 = 960247313203.2
    assert_eq!(size_from_text("894.3G"), Some(960247313203));
}

#[test]
fn size_units_are_case_insensitive() {
    assert_eq!(size_from_text("3.5T"), size_from_text("3.5t"));
    assert_eq!(size_from_text("3.5T"), Some(3848290697216));
    assert_eq!(size_from_text("1kib"), Some(1024));
    assert_eq!(size_from_text("1KiB"), Some(1024));
    assert_eq!(size_from_text("2mb"), Some(2 * 1024 * 1024));
}

#[test]
fn size_divided_by_unit_recovers_the_number() {
    for (text, n, m) in [
        ("7.6G", 7.6, G as f64),
        ("19.1g", 19.1, G as f64),
        ("866.8G", 866.8, G as f64),
        ("1.7T", 1.7, (G * 1024) as f64),
        ("487M", 487.0, (1024 * 1024) as f64),
        ("0.25K", 0.25, 1024.0),
    ] {
        let bytes = size_from_text(text).unwrap() as f64;
        assert!((bytes / m - n).abs() <= 0.5 / m + 1e-9, "{}", text);
    }
}

#[test]
fn size_suffix_forms() {
    assert_eq!(size_from_text("512"), Some(512));
    assert_eq!(size_from_text("512B"), Some(512));
    assert_eq!(size_from_text("512b"), Some(512));
    assert_eq!(size_from_text("1K"), Some(1024));
    assert_eq!(size_from_text("1KB"), Some(1024));
    assert_eq!(size_from_text("1M"), Some(1024 * 1024));
    assert_eq!(size_from_text("1G"), Some(G));
    assert_eq!(size_from_text("1T"), Some(G * 1024));
    assert_eq!(size_from_text("1P"), Some(G * 1024 * 1024));
    assert_eq!(size_from_text("1PiB"), Some(G * 1024 * 1024));
}

#[test]
fn size_white_space_is_ignored_around_number_and_unit() {
    assert_eq!(size_from_text("  7.6G \n"), Some(8160437862));
    assert_eq!(size_from_text("2 M"), Some(2 * 1024 * 1024));
    assert_eq!(size_from_text("\t2.5 k "), Some(2560));
}

#[test]
fn size_rounds_to_nearest_with_halves_up() {
    assert_eq!(size_from_text("1.5"), Some(2));
    assert_eq!(size_from_text("0.5"), Some(1));
    assert_eq!(size_from_text("0.4"), Some(0));
    assert_eq!(size_from_text("0.001K"), Some(1));
    assert_eq!(size_from_text("0.0001K"), Some(0));
    assert_eq!(size_from_text("5."), Some(5));
    assert_eq!(size_from_text(".5K"), Some(512));
}

#[test]
fn size_invalid_strings_are_rejected() {
    assert_eq!(size_from_text(""), None);
    assert_eq!(size_from_text("   "), None);
    assert_eq!(size_from_text("G"), None);
    assert_eq!(size_from_text("."), None);
    assert_eq!(size_from_text(".G"), None);
    assert_eq!(size_from_text("1.2.3G"), None);
    assert_eq!(size_from_text("12X"), None);
    assert_eq!(size_from_text("12 K B"), None);
    assert_eq!(size_from_text("1e3"), None);
    assert_eq!(size_from_text("-5K"), None);
    assert_eq!(size_from_text("1GG"), None);
    assert_eq!(size_from_text("1BB"), None);
}

#[test]
fn size_too_large_for_64_bits_is_rejected() {
    assert_eq!(size_from_text("18446744073709551615"), Some(u64::MAX));
    assert_eq!(size_from_text("18446744073709551616"), None);
    assert_eq!(size_from_text("16384P"), None);
    assert_eq!(size_from_text("16383.99P"), Some(18446732814710483190));
    assert_eq!(size_from_text("99999999999999999999999P"), None);
}

#[test]
fn number_sizes_truncate_toward_zero() {
    assert_eq!(size_from_number("4096"), Some(4096));
    assert_eq!(size_from_number("12.9"), Some(12));
    assert_eq!(size_from_number("0.99"), Some(0));
    assert_eq!(size_from_number("-1"), None);
    assert_eq!(size_from_number("1e3"), None);
    assert_eq!(size_from_number("18446744073709551616.5"), None);
}

#[test]
fn kinds_classify_exactly() {
    assert_eq!(DeviceKind::classify("disk"), DeviceKind::Disk);
    assert_eq!(DeviceKind::classify("part"), DeviceKind::Partition);
    assert_eq!(DeviceKind::classify("loop"), DeviceKind::Loop);
    assert_eq!(DeviceKind::classify("raid1"), DeviceKind::RaidMirror);
    assert_eq!(DeviceKind::classify("raid5"), DeviceKind::Raid5);
    assert_eq!(DeviceKind::classify("raid6"), DeviceKind::Raid6);
    assert_eq!(DeviceKind::classify("raid0"), DeviceKind::Raid0);
    assert_eq!(DeviceKind::classify("raid10"), DeviceKind::Raid10);
    assert_eq!(DeviceKind::classify("lvm"), DeviceKind::LogicalVolume);
    assert_eq!(DeviceKind::classify("crypt"), DeviceKind::EncryptedMapper);
    assert_eq!(DeviceKind::classify("rom"), DeviceKind::Optical);
    assert_eq!(
        DeviceKind::classify("Disk"),
        DeviceKind::Unrecognized("Disk".to_string())
    );
    assert_eq!(DeviceKind::classify(""), DeviceKind::Unrecognized(String::new()));
}

#[test]
fn kind_labels_round_trip() {
    for label in ["disk", "part", "loop", "raid1", "raid5", "raid6", "raid0", "raid10", "lvm",
        "crypt", "rom", "md", "dm"]
    {
        assert_eq!(DeviceKind::classify(label).label(), label);
    }
}

#[test]
fn mountpoint_normalizer_shapes() {
    assert_eq!(normalize_mountpoints(None), Some(vec![]));
    assert_eq!(normalize_mountpoints(Some(&JsonValue::Null)), Some(vec![None]));
    assert_eq!(
        normalize_mountpoints(Some(&JsonValue::Str("/".to_string()))),
        Some(vec![Some("/".to_string())])
    );
    let list = JsonValue::Array(vec![
        JsonValue::Str("/a".to_string()),
        JsonValue::Null,
        JsonValue::Str("/b".to_string()),
    ]);
    assert_eq!(
        normalize_mountpoints(Some(&list)),
        Some(vec![Some("/a".to_string()), None, Some("/b".to_string())])
    );
    assert_eq!(normalize_mountpoints(Some(&JsonValue::Bool(true))), None);
    assert_eq!(
        normalize_mountpoints(Some(&JsonValue::Array(vec![JsonValue::Unsigned(1)]))),
        None
    );
    assert_eq!(
        normalize_mountpoints(Some(&JsonValue::Array(vec![JsonValue::Array(vec![])]))),
        None
    );
}

#[test]
fn single_value_equals_one_element_list() {
    let make = |k: usize| match k {
        0 => JsonValue::Null,
        1 => JsonValue::Str("/srv".to_string()),
        _ => JsonValue::Bool(false),
    };
    for k in 0..3 {
        let list = JsonValue::Array(vec![make(k)]);
        assert_eq!(normalize_mountpoints(Some(&make(k))), normalize_mountpoints(Some(&list)));
    }
}

fn leaf(name: &str, mounts: Vec<Option<&str>>) -> BlockDevice {
    BlockDevice {
        name: name.to_string(),
        maj_min: "8:0".to_string(),
        rm: false,
        size: 0,
        ro: false,
        device_type: DeviceKind::Partition,
        mountpoints: mounts.into_iter().map(|m| m.map(|p| p.to_string())).collect(),
        children: None,
    }
}

#[test]
fn device_queries_on_a_built_tree() {
    let mut disk = leaf("sda", vec![None]);
    disk.device_type = DeviceKind::Disk;
    let mut part = leaf("sda1", vec![None, Some("/home"), None, Some("/srv")]);
    part.children = Some(vec![leaf("sda", vec![Some("/")])]);
    disk.children = Some(vec![leaf("sda0", vec![]), part]);

    assert!(disk.has_children());
    assert_eq!(disk.child_devices().len(), 2);
    assert!(disk.is_system());
    assert!(!disk.is_mounted());
    assert!(disk.active_mountpoints().is_empty());
    let part = disk.find_child("sda1").unwrap();
    assert_eq!(
        part.active_mountpoints(),
        vec!["/home".to_string(), "/srv".to_string()]
    );
    assert!(part.is_mounted());
    assert!(part.is_system());
    assert!(disk.find_child("sda").is_none());
    assert_eq!(part.find_child("sda").unwrap().mountpoints, vec![Some("/".to_string())]);
    let first = disk.find_child("sda0").unwrap();
    assert!(!first.is_system());
    assert!(!first.has_children());
    assert!(first.child_devices().is_empty());
    assert!(first.find_child("x").is_none());
}

#[test]
fn root_must_match_exactly() {
    assert!(!leaf("a", vec![Some("/boot")]).is_system());
    assert!(!leaf("a", vec![Some("//")]).is_system());
    assert!(!leaf("a", vec![Some(" /")]).is_system());
    assert!(leaf("a", vec![None, Some("/")]).is_system());
}
