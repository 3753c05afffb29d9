use blockdev::{BlockDevices, DeviceKind, Field, JsonValue, Member, ParseError};

/// Converts a document parsed by serde_json into the library's plain form.
fn plain(v: &serde_json::Value) -> JsonValue {
    match v {
        serde_json::Value::Null => JsonValue::Null,
        serde_json::Value::Bool(b) => JsonValue::Bool(*b),
        serde_json::Value::Number(n) => match n.as_u64() {
            Some(u) => JsonValue::Unsigned(u),
            None => match n.as_i64() {
                Some(i) => JsonValue::Decimal(i.to_string()),
                None => JsonValue::Decimal(format!("{}", n.as_f64().unwrap_or(0.0))),
            },
        },
        serde_json::Value::String(s) => JsonValue::Str(s.clone()),
        serde_json::Value::Array(items) => JsonValue::Array(items.iter().map(plain).collect()),
        serde_json::Value::Object(map) => JsonValue::Object(
            map.iter()
                .map(|(k, v)| Member { key: k.clone(), value: plain(v) })
                .collect(),
        ),
    }
}

/// Converts the library's plain form back into a serde_json document.
fn rich(j: &JsonValue) -> serde_json::Value {
    match j {
        JsonValue::Null => serde_json::Value::Null,
        JsonValue::Bool(b) => serde_json::Value::Bool(*b),
        JsonValue::Unsigned(u) => serde_json::Value::from(*u),
        JsonValue::Decimal(t) => serde_json::Value::Number(t.parse().unwrap()),
        JsonValue::Str(s) => serde_json::Value::String(s.clone()),
        JsonValue::Array(items) => serde_json::Value::Array(items.iter().map(rich).collect()),
        JsonValue::Object(members) => {
            let mut map = serde_json::Map::new();
            for m in members {
                map.insert(m.key.clone(), rich(&m.value));
            }
            serde_json::Value::Object(map)
        }
    }
}

fn parse_lsblk(text: &str) -> Result<BlockDevices, ParseError> {
    let value: serde_json::Value =
        serde_json::from_str(text).map_err(|_| ParseError::Structure(Field::Document))?;
    BlockDevices::from_json(&plain(&value))
}

const SAMPLE_JSON: &str = r#"

{
    "blockdevices": [
        {"name":"nvme1n1", "maj:min":"259:0", "rm":false, "size":"3.5T", "ro":false, "type":"disk", "mountpoint":null,
            "children": [
                {"name":"nvme1n1p1", "maj:min":"259:1", "rm":false, "size":"3.5T", "ro":false, "type":"part", "mountpoint":null},
                {"name":"nvme1n1p9", "maj:min":"259:2", "rm":false, "size":"8M", "ro":false, "type":"part", "mountpoint":null}
            ]
        },
        {"name":"nvme7n1", "maj:min":"259:3", "rm":false, "size":"3.5T", "ro":false, "type":"disk", "mountpoint":null,
            "children": [
                {"name":"nvme7n1p1", "maj:min":"259:7", "rm":false, "size":"3.5T", "ro":false, "type":"part", "mountpoint":null},
                {"name":"nvme7n1p9", "maj:min":"259:8", "rm":false, "size":"8M", "ro":false, "type":"part", "mountpoint":null}
            ]
        },
        {"name":"nvme5n1", "maj:min":"259:4", "rm":false, "size":"3.5T", "ro":false, "type":"disk", "mountpoint":null,
            "children": [
                {"name":"nvme5n1p1", "maj:min":"259:5", "rm":false, "size":"3.5T", "ro":false, "type":"part", "mountpoint":null},
                {"name":"nvme5n1p9", "maj:min":"259:6", "rm":false, "size":"8M", "ro":false, "type":"part", "mountpoint":null}
            ]
        },
        {"name":"nvme9n1", "maj:min":"259:9", "rm":false, "size":"3.5T", "ro":false, "type":"disk", "mountpoint":null,
            "children": [
                {"name":"nvme9n1p1", "maj:min":"259:13", "rm":false, "size":"3.5T", "ro":false, "type":"part", "mountpoint":null},
                {"name":"nvme9n1p9", "maj:min":"259:14", "rm":false, "size":"8M", "ro":false, "type":"part", "mountpoint":null}
            ]
        },
        {"name":"nvme4n1", "maj:min":"259:10", "rm":false, "size":"3.5T", "ro":false, "type":"disk", "mountpoint":null,
            "children": [
                {"name":"nvme4n1p1", "maj:min":"259:11", "rm":false, "size":"3.5T", "ro":false, "type":"part", "mountpoint":null},
                {"name":"nvme4n1p9", "maj:min":"259:12", "rm":false, "size":"8M", "ro":false, "type":"part", "mountpoint":null}
            ]
        },
        {"name":"nvme8n1", "maj:min":"259:15", "rm":false, "size":"3.5T", "ro":false, "type":"disk", "mountpoint":null,
            "children": [
                {"name":"nvme8n1p1", "maj:min":"259:20", "rm":false, "size":"3.5T", "ro":false, "type":"part", "mountpoint":null},
                {"name":"nvme8n1p9", "maj:min":"259:21", "rm":false, "size":"8M", "ro":false, "type":"part", "mountpoint":null}
            ]
        },
        {"name":"nvme6n1", "maj:min":"259:16", "rm":false, "size":"3.5T", "ro":false, "type":"disk", "mountpoint":null,
            "children": [
                {"name":"nvme6n1p1", "maj:min":"259:17", "rm":false, "size":"3.5T", "ro":false, "type":"part", "mountpoint":null},
                {"name":"nvme6n1p9", "maj:min":"259:18", "rm":false, "size":"8M", "ro":false, "type":"part", "mountpoint":null}
            ]
        },
        {"name":"nvme3n1", "maj:min":"259:19", "rm":false, "size":"894.3G", "ro":false, "type":"disk", "mountpoint":null,
            "children": [
                {"name":"nvme3n1p1", "maj:min":"259:23", "rm":false, "size":"1M", "ro":false, "type":"part", "mountpoint":null},
                {"name":"nvme3n1p2", "maj:min":"259:24", "rm":false, "size":"244M", "ro":false, "type":"part", "mountpoint":"/boot/efi"},
                {"name":"nvme3n1p3", "maj:min":"259:25", "rm":false, "size":"488M", "ro":false, "type":"part", "mountpoint":null,
                "children": [
                    {"name":"md0", "maj:min":"9:0", "rm":false, "size":"487M", "ro":false, "type":"raid1", "mountpoint":"/boot"}
                ]
                },
                {"name":"nvme3n1p4", "maj:min":"259:26", "rm":false, "size":"7.6G", "ro":false, "type":"part", "mountpoint":null,
                "children": [
                    {"name":"md1", "maj:min":"9:1", "rm":false, "size":"7.6G", "ro":false, "type":"raid1", "mountpoint":"[SWAP]"}
                ]
                },
                {"name":"nvme3n1p5", "maj:min":"259:27", "rm":false, "size":"19.1G", "ro":false, "type":"part", "mountpoint":null,
                "children": [
                    {"name":"md2", "maj:min":"9:2", "rm":false, "size":"19.1G", "ro":false, "type":"raid1", "mountpoint":"/"}
                ]
                },
                {"name":"nvme3n1p6", "maj:min":"259:28", "rm":false, "size":"866.8G", "ro":false, "type":"part", "mountpoint":null}
            ]
        },
        {"name":"nvme0n1", "maj:min":"259:22", "rm":false, "size":"3.5T", "ro":false, "type":"disk", "mountpoint":null,
            "children": [
                {"name":"nvme0n1p1", "maj:min":"259:29", "rm":false, "size":"3.5T", "ro":false, "type":"part", "mountpoint":null},
                {"name":"nvme0n1p9", "maj:min":"259:30", "rm":false, "size":"8M", "ro":false, "type":"part", "mountpoint":null}
            ]
        },
        {"name":"nvme2n1", "maj:min":"259:31", "rm":false, "size":"894.3G", "ro":false, "type":"disk", "mountpoint":null,
            "children": [
                {"name":"nvme2n1p1", "maj:min":"259:32", "rm":false, "size":"1M", "ro":false, "type":"part", "mountpoint":null},
                {"name":"nvme2n1p2", "maj:min":"259:33", "rm":false, "size":"244M", "ro":false, "type":"part", "mountpoint":null},
                {"name":"nvme2n1p3", "maj:min":"259:34", "rm":false, "size":"488M", "ro":false, "type":"part", "mountpoint":null,
                "children": [
                    {"name":"md0", "maj:min":"9:0", "rm":false, "size":"487M", "ro":false, "type":"raid1", "mountpoint":"/boot"}
                ]
                },
                {"name":"nvme2n1p4", "maj:min":"259:35", "rm":false, "size":"7.6G", "ro":false, "type":"part", "mountpoint":null,
                "children": [
                    {"name":"md1", "maj:min":"9:1", "rm":false, "size":"7.6G", "ro":false, "type":"raid1", "mountpoint":"[SWAP]"}
                ]
                },
                {"name":"nvme2n1p5", "maj:min":"259:36", "rm":false, "size":"19.1G", "ro":false, "type":"part", "mountpoint":null,
                "children": [
                    {"name":"md2", "maj:min":"9:2", "rm":false, "size":"19.1G", "ro":false, "type":"raid1", "mountpoint":"/"}
                ]
                },
                {"name":"nvme2n1p6", "maj:min":"259:37", "rm":false, "size":"866.8G", "ro":false, "type":"part", "mountpoint":null}
            ]
        }
    ]
}
"#;

#[test]
fn test_parse_lsblk() {
    let lsblk = parse_lsblk(SAMPLE_JSON).expect("Failed to parse JSON");

    // Assert the expected number of top-level block devices.
    assert_eq!(
        lsblk.blockdevices.len(),
        10,
        "Expected 10 top-level block devices"
    );

    // Verify that required fields are non-empty.
    for device in &lsblk.blockdevices {
        assert!(!device.name.is_empty(), "Device name should not be empty");
        assert!(
            !device.maj_min.is_empty(),
            "Device maj:min should not be empty"
        );
    }

    // Pick a device with nested children and validate details.
    let nvme3n1 = lsblk
        .blockdevices
        .iter()
        .find(|d| d.name == "nvme3n1")
        .expect("Expected to find device nvme3n1");

    // Its first mountpoint should be None.
    assert!(
        nvme3n1
            .mountpoints
            .first()
            .and_then(|opt| opt.as_deref())
            .is_none(),
        "nvme3n1 effective mountpoint should be None"
    );

    // Verify that nvme3n1 has exactly 6 children.
    let children = nvme3n1
        .children
        .as_ref()
        .expect("nvme3n1 should have children");
    assert_eq!(children.len(), 6, "nvme3n1 should have 6 children");

    // Validate that child nvme3n1p2 has first mountpoint of "/boot/efi".
    let nvme3n1p2 = children
        .iter()
        .find(|c| c.name == "nvme3n1p2")
        .expect("Expected to find nvme3n1p2");
    assert_eq!(
        nvme3n1p2.mountpoints.first().and_then(|opt| opt.as_deref()),
        Some("/boot/efi"),
        "nvme3n1p2 first mountpoint should be '/boot/efi'"
    );

    // In nvme3n1p3, verify that its nested child md0 has an effective mountpoint of "/boot".
    let nvme3n1p3 = children
        .iter()
        .find(|c| c.name == "nvme3n1p3")
        .expect("Expected to find nvme3n1p3");
    let nested_children = nvme3n1p3
        .children
        .as_ref()
        .expect("nvme3n1p3 should have children");
    let md0 = nested_children
        .iter()
        .find(|d| d.name == "md0")
        .expect("Expected to find md0 under nvme3n1p3");
    assert_eq!(
        md0.mountpoints.first().and_then(|opt| opt.as_deref()),
        Some("/boot"),
        "md0 effective mountpoint should be '/boot'"
    );

    // Since nvme3n1 has a descendant (md2) with effective mountpoint "/" it should be excluded.
    let non_system = lsblk.non_system();
    assert_eq!(
        non_system.len(),
        8,
        "Expected 8 non-system top-level devices, since nvme3n1/nvme2n1 is system"
    );
    assert!(
        !non_system.iter().any(|d| d.name == "nvme3n1"),
        "nvme3n1 should be excluded from non-system devices"
    );
}

#[test]
fn test_non_system() {
    // One device is system (has "/" mountpoint in a child) and one is non-system.
        let test_json = r#"
    {
        "blockdevices": [
            {
                "name": "sda",
                "maj:min": "8:0",
                "rm": false,
                "size": "447.1G",
                "ro": false,
                "type": "disk",
                "mountpoints": [
                    null
                ],
                "children": [
                    {
                    "name": "sda1",
                    "maj:min": "8:1",
                    "rm": false,
                    "size": "512M",
                    "ro": false,
                    "type": "part",
                    "mountpoints": [
                        null
                    ]
                    },{
                    "name": "sda2",
                    "maj:min": "8:2",
                    "rm": false,
                    "size": "446.6G",
                    "ro": false,
                    "type": "part",
                    "mountpoints": [
                        null
                    ],
                    "children": [
                        {
                            "name": "md0",
                            "maj:min": "9:0",
                            "rm": false,
                            "size": "446.6G",
                            "ro": false,
                            "type": "raid1",
                            "mountpoints": [
                                "/"
                            ]
                        }
                    ]
                    }
                ]
            },{
                "name": "sdb",
                "maj:min": "8:16",
                "rm": false,
                "size": "447.1G",
                "ro": false,
                "type": "disk",
                "mountpoints": [
                    null
                ],
                "children": [
                    {
                    "name": "sdb1",
                    "maj:min": "8:17",
                    "rm": false,
                    "size": "512M",
                    "ro": false,
                    "type": "part",
                    "mountpoints": [
                        "/boot/efi"
                    ]
                    },{
                    "name": "sdb2",
                    "maj:min": "8:18",
                    "rm": false,
                    "size": "446.6G",
                    "ro": false,
                    "type": "part",
                    "mountpoints": [
                        null
                    ],
                    "children": [
                        {
                            "name": "md0",
                            "maj:min": "9:0",
                            "rm": false,
                            "size": "446.6G",
                            "ro": false,
                            "type": "raid1",
                            "mountpoints": [
                                "/"
                            ]
                        }
                    ]
                    }
                ]
            },{
                "name": "nvme0n1",
                "maj:min": "259:2",
                "rm": false,
                "size": "1.7T",
                "ro": false,
                "type": "disk",
                "mountpoints": [
                    null
                ]
            },{
                "name": "nvme1n1",
                "maj:min": "259:3",
                "rm": false,
                "size": "1.7T",
                "ro": false,
                "type": "disk",
                "mountpoints": [
                    null
                ]
            }
        ]
    }
    "#;
    let disks = parse_lsblk(test_json).unwrap();
    let non_system = disks.non_system();
    assert_eq!(non_system.len(), 2);
    let names: Vec<&str> = non_system.iter().map(|d| d.name.as_str()).collect();
    assert_eq!(names, vec!["nvme0n1", "nvme1n1"]);
}

#[test]
fn sample_sizes_are_normalized_to_bytes() {
    let lsblk = parse_lsblk(SAMPLE_JSON).unwrap();
    let nvme3n1 = lsblk.find_by_name("nvme3n1").unwrap();
    assert_eq!(nvme3n1.size, 960247313203);
    assert_eq!(nvme3n1.device_type, DeviceKind::Disk);
    let p3 = nvme3n1.find_child("nvme3n1p3").unwrap();
    assert_eq!(p3.device_type, DeviceKind::Partition);
    assert_eq!(p3.size, 488 * 1024 * 1024);
    let md0 = p3.find_child("md0").unwrap();
    assert_eq!(md0.device_type, DeviceKind::RaidMirror);
    assert_eq!(md0.size, 510656512);
    let nvme1n1 = lsblk.find_by_name("nvme1n1").unwrap();
    assert_eq!(nvme1n1.size, 3848290697216);
}

#[test]
fn system_lists_disks_that_root_the_file_system() {
    let lsblk = parse_lsblk(SAMPLE_JSON).unwrap();
    let names: Vec<&str> = lsblk.system().iter().map(|d| d.name.as_str()).collect();
    assert_eq!(names, vec!["nvme3n1", "nvme2n1"]);
}

const NESTED: &str = r#"
{"blockdevices": [
  {"name": "sda", "maj:min": "8:0", "rm": false, "size": "100G", "ro": false, "type": "disk",
   "mountpoints": [null],
   "children": [
     {"name": "sda1", "maj:min": "8:1", "rm": false, "size": "1G", "ro": false, "type": "part",
      "mountpoints": ["/boot"]},
     {"name": "sda2", "maj:min": "8:2", "rm": false, "size": "99G", "ro": false, "type": "part",
      "mountpoints": [null],
      "children": [
        {"name": "md0", "maj:min": "9:0", "rm": false, "size": "99G", "ro": false, "type": "raid1",
         "mountpoints": ["/"]}
      ]}
   ]},
  {"name": "sdb", "maj:min": "8:16", "rm": true, "size": "16G", "ro": false, "type": "disk",
   "mountpoint": "/media/usb"}
]}
"#;

#[test]
fn root_on_a_grandchild_makes_the_disk_system() {
    let lsblk = parse_lsblk(NESTED).unwrap();
    let sda = lsblk.find_by_name("sda").unwrap();
    assert!(sda.is_system());
    let sda1 = sda.find_child("sda1").unwrap();
    assert!(!sda1.is_system());
    let sda2 = sda.find_child("sda2").unwrap();
    assert!(sda2.is_system());
    assert_eq!(sda2.name, "sda2");
    assert!(sda.find_child("md0").is_none());
    let system: Vec<&str> = lsblk.system().iter().map(|d| d.name.as_str()).collect();
    assert_eq!(system, vec!["sda"]);
    let non_system: Vec<&str> = lsblk.non_system().iter().map(|d| d.name.as_str()).collect();
    assert_eq!(non_system, vec!["sdb"]);
    assert!(!lsblk.find_by_name("sdb").unwrap().is_system());
}

#[test]
fn system_and_non_system_partition_the_devices_in_order() {
    let lsblk = parse_lsblk(SAMPLE_JSON).unwrap();
    let system = lsblk.system();
    let non_system = lsblk.non_system();
    assert_eq!(system.len() + non_system.len(), lsblk.len());
    let (mut i, mut j) = (0, 0);
    for d in lsblk.devices() {
        if d.is_system() {
            assert_eq!(system[i].name, d.name);
            i += 1;
        } else {
            assert_eq!(non_system[j].name, d.name);
            j += 1;
        }
    }
    assert_eq!((i, j), (system.len(), non_system.len()));
}

#[test]
fn empty_document_gives_empty_answers() {
    let lsblk = parse_lsblk(r#"{"blockdevices": []}"#).unwrap();
    assert!(lsblk.is_empty());
    assert!(lsblk.system().is_empty());
    assert!(lsblk.non_system().is_empty());
    assert!(lsblk.find_by_name("sda").is_none());
    assert!(lsblk.into_devices().is_empty());
}

#[test]
fn writing_out_and_reading_back_gives_the_same_tree() {
    for text in [SAMPLE_JSON, NESTED] {
        let first = parse_lsblk(text).unwrap();
        let written = serde_json::to_string(&rich(&first.to_json())).unwrap();
        let second = parse_lsblk(&written).unwrap();
        assert_eq!(first, second);
    }
}

#[test]
fn absent_and_empty_children_survive_a_round_trip() {
    let text = r#"{"blockdevices": [
        {"name": "a", "maj:min": "1:0", "rm": false, "size": 10, "ro": false, "type": "disk"},
        {"name": "b", "maj:min": "1:1", "rm": false, "size": 10, "ro": false, "type": "disk",
         "children": []}
    ]}"#;
    let first = parse_lsblk(text).unwrap();
    assert!(first.blockdevices[0].children.is_none());
    assert_eq!(first.blockdevices[1].children.as_ref().map(|c| c.len()), Some(0));
    assert!(!first.blockdevices[0].has_children());
    assert!(!first.blockdevices[1].has_children());
    let written = serde_json::to_string(&rich(&first.to_json())).unwrap();
    let second = parse_lsblk(&written).unwrap();
    assert_eq!(first, second);
}

fn record_with(mount: &str) -> String {
    format!(
        r#"{{"blockdevices": [{{"name": "sda", "maj:min": "8:0", "rm": false, "size": "1G", "ro": false, "type": "disk"{}}}]}}"#,
        mount
    )
}

#[test]
fn single_mountpoint_reads_like_a_one_element_list() {
    for (single, list) in [
        (r#", "mountpoint": null"#, r#", "mountpoints": [null]"#),
        (r#", "mountpoint": "/data""#, r#", "mountpoints": ["/data"]"#),
        (r#", "mountpoints": "/data""#, r#", "mountpoint": ["/data"]"#),
    ] {
        let a = parse_lsblk(&record_with(single)).unwrap();
        let b = parse_lsblk(&record_with(list)).unwrap();
        assert_eq!(a.blockdevices[0].mountpoints, b.blockdevices[0].mountpoints);
    }
    let a = parse_lsblk(&record_with(r#", "mountpoint": "/data""#)).unwrap();
    assert_eq!(a.blockdevices[0].mountpoints, vec![Some("/data".to_string())]);
}

#[test]
fn absent_mountpoint_field_gives_no_slot() {
    let a = parse_lsblk(&record_with("")).unwrap();
    assert!(a.blockdevices[0].mountpoints.is_empty());
    assert!(!a.blockdevices[0].is_mounted());
    let b = parse_lsblk(&record_with(r#", "mountpoints": [null]"#)).unwrap();
    assert_eq!(b.blockdevices[0].mountpoints, vec![None]);
    assert!(!b.blockdevices[0].is_mounted());
}

#[test]
fn plural_mountpoint_field_wins_over_singular() {
    let a = parse_lsblk(&record_with(r#", "mountpoint": "/old", "mountpoints": ["/new", null]"#))
        .unwrap();
    assert_eq!(a.blockdevices[0].mountpoints, vec![Some("/new".to_string()), None]);
    assert_eq!(a.blockdevices[0].active_mountpoints(), vec!["/new".to_string()]);
    assert!(a.blockdevices[0].is_mounted());
}

#[test]
fn numeric_sizes_are_byte_counts() {
    let text = r#"{"blockdevices": [
        {"name": "a", "maj:min": "1:0", "rm": false, "size": 4096, "ro": true, "type": "loop"},
        {"name": "b", "maj:min": "1:1", "rm": true, "size": 1536.9, "ro": false, "type": "rom"}
    ]}"#;
    let d = parse_lsblk(text).unwrap();
    assert_eq!(d.blockdevices[0].size, 4096);
    assert!(d.blockdevices[0].ro);
    assert_eq!(d.blockdevices[0].device_type, DeviceKind::Loop);
    assert_eq!(d.blockdevices[1].size, 1536);
    assert!(d.blockdevices[1].rm);
    assert_eq!(d.blockdevices[1].device_type, DeviceKind::Optical);
}

#[test]
fn unknown_type_labels_are_kept() {
    let text = r#"{"blockdevices": [
        {"name": "dm-0", "maj:min": "253:0", "rm": false, "size": "1G", "ro": false, "type": "mpath"}
    ]}"#;
    let d = parse_lsblk(text).unwrap();
    assert_eq!(
        d.blockdevices[0].device_type,
        DeviceKind::Unrecognized("mpath".to_string())
    );
    let written = serde_json::to_string(&rich(&d.to_json())).unwrap();
    assert!(written.contains("\"mpath\""));
}

fn error_of(text: &str) -> ParseError {
    parse_lsblk(text).unwrap_err()
}

#[test]
fn shape_errors_name_the_field() {
    assert_eq!(error_of("[]"), ParseError::Structure(Field::Document));
    assert_eq!(error_of(r#"{"devices": []}"#), ParseError::Structure(Field::BlockDevices));
    assert_eq!(error_of(r#"{"blockdevices": [1]}"#), ParseError::Structure(Field::Device));
    let base = r#""maj:min": "8:0", "rm": false, "size": "1G", "ro": false, "type": "disk""#;
    assert_eq!(
        error_of(&format!(r#"{{"blockdevices": [{{{}}}]}}"#, base)),
        ParseError::Structure(Field::Name)
    );
    assert_eq!(
        error_of(r#"{"blockdevices": [{"name": "a", "rm": false, "size": "1G", "ro": false, "type": "disk"}]}"#),
        ParseError::Structure(Field::MajMin)
    );
    assert_eq!(
        error_of(r#"{"blockdevices": [{"name": "a", "maj:min": "1:0", "rm": "0", "size": "1G", "ro": false, "type": "disk"}]}"#),
        ParseError::Structure(Field::Removable)
    );
    assert_eq!(
        error_of(r#"{"blockdevices": [{"name": "a", "maj:min": "1:0", "rm": false, "size": null, "ro": false, "type": "disk"}]}"#),
        ParseError::Structure(Field::Size)
    );
    assert_eq!(
        error_of(r#"{"blockdevices": [{"name": "a", "maj:min": "1:0", "rm": false, "size": "1G", "type": "disk"}]}"#),
        ParseError::Structure(Field::ReadOnly)
    );
    assert_eq!(
        error_of(r#"{"blockdevices": [{"name": "a", "maj:min": "1:0", "rm": false, "size": "1G", "ro": false, "type": 7}]}"#),
        ParseError::Structure(Field::Type)
    );
    assert_eq!(
        error_of(&record_with(r#", "mountpoints": [null, 3]"#)),
        ParseError::Structure(Field::Mountpoints)
    );
    assert_eq!(
        error_of(&record_with(r#", "mountpoint": true"#)),
        ParseError::Structure(Field::Mountpoints)
    );
    assert_eq!(
        error_of(&record_with(r#", "children": {}"#)),
        ParseError::Structure(Field::Children)
    );
    assert_eq!(
        error_of(&record_with(r#", "children": ["sda1"]"#)),
        ParseError::Structure(Field::Device)
    );
}

#[test]
fn bad_values_carry_the_raw_value() {
    assert_eq!(
        error_of(r#"{"blockdevices": [{"name": "a", "maj:min": "1:0", "rm": false, "size": "12X", "ro": false, "type": "disk"}]}"#),
        ParseError::Normalization(Field::Size, "12X".to_string())
    );
    assert_eq!(
        error_of(r#"{"blockdevices": [{"name": "a", "maj:min": "1:0", "rm": false, "size": -5, "ro": false, "type": "disk"}]}"#),
        ParseError::Normalization(Field::Size, "-5".to_string())
    );
    assert_eq!(
        error_of(r#"{"blockdevices": [{"name": "", "maj:min": "1:0", "rm": false, "size": "1G", "ro": false, "type": "disk"}]}"#),
        ParseError::Normalization(Field::Name, String::new())
    );
}

#[test]
fn first_failing_child_decides_the_error() {
    let text = record_with(
        r#", "children": [{"name": "x", "maj:min": "1:1", "rm": false, "size": "1Q", "ro": false, "type": "part"}, 5]"#,
    );
    assert_eq!(
        error_of(&text),
        ParseError::Normalization(Field::Size, "1Q".to_string())
    );
}
