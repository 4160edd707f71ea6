use installer_gui::disks::{
    disks_from_devices, first_nonblank_line, human_size, BoolIsh, Disk, DiskKind, LsblkDevice,
    NumOrStr,
};

fn disk(name: &str, tran: &str, rotational: bool, is_live: bool) -> Disk {
    Disk {
        name: name.to_string(),
        size: "1.0G".to_string(),
        model: String::new(),
        tran: tran.to_string(),
        rotational,
        is_live,
    }
}

fn device(name: &str, dtype: Option<&str>) -> LsblkDevice {
    LsblkDevice {
        name: name.to_string(),
        size: Some(NumOrStr::Num(500107862016)),
        model: Some("  Samsung SSD  ".to_string()),
        tran: Some("sata".to_string()),
        rota: Some(BoolIsh::Bool(false)),
        dtype: dtype.map(|t| t.to_string()),
    }
}

/// The same size written with floating-point division and `{:.1}` formatting.
fn float_human_size(bytes: u64) -> String {
    if bytes == 0 {
        return "-".to_string();
    }
    let units = ["B", "K", "M", "G", "T", "P"];
    let mut val = bytes as f64;
    let mut unit = 0;
    while val >= 1024.0 && unit < units.len() - 1 {
        val /= 1024.0;
        unit += 1;
    }
    if unit == 0 {
        format!("{bytes}{}", units[unit])
    } else {
        format!("{val:.1}{}", units[unit])
    }
}

#[test]
fn kind_follows_transport_then_rotation() {
    assert_eq!(disk("sdb", "usb", true, false).kind(), DiskKind::Usb);
    assert_eq!(disk("sda", "sata", true, false).kind(), DiskKind::Hdd);
    assert_eq!(disk("nvme0n1", "nvme", false, false).kind(), DiskKind::Ssd);
    assert_eq!(disk("sdc", "", false, false).kind(), DiskKind::Ssd);
    assert_eq!(disk("sdd", "USB", true, false).kind(), DiskKind::Hdd);
}

#[test]
fn transport_badge_upper_cases_or_says_disk() {
    assert_eq!(disk("sda", "", false, false).transport_badge(), "DISK");
    assert_eq!(disk("sda", "usb", false, false).transport_badge(), "USB");
    assert_eq!(disk("nvme0n1", "nvme", false, false).transport_badge(), "NVME");
    assert_eq!(disk("sda", "ß", false, false).transport_badge(), "SS");
}

#[test]
fn sizes_read_from_numbers_and_strings() {
    assert_eq!(NumOrStr::Num(5).as_u64(), 5);
    assert_eq!(NumOrStr::Str(" 1024 ".to_string()).as_u64(), 1024);
    assert_eq!(NumOrStr::Str("+7".to_string()).as_u64(), 7);
    assert_eq!(NumOrStr::Str("abc".to_string()).as_u64(), 0);
    assert_eq!(NumOrStr::Str("-1".to_string()).as_u64(), 0);
    assert_eq!(NumOrStr::Str("".to_string()).as_u64(), 0);
    assert_eq!(NumOrStr::Str("18446744073709551615".to_string()).as_u64(), u64::MAX);
    assert_eq!(NumOrStr::Str("18446744073709551616".to_string()).as_u64(), 0);
}

#[test]
fn flags_read_from_booleans_numbers_and_strings() {
    assert!(BoolIsh::Bool(true).truthy());
    assert!(!BoolIsh::Bool(false).truthy());
    assert!(BoolIsh::Num(1).truthy());
    assert!(BoolIsh::Num(7).truthy());
    assert!(!BoolIsh::Num(0).truthy());
    assert!(BoolIsh::Str("1".to_string()).truthy());
    assert!(BoolIsh::Str("TRUE".to_string()).truthy());
    assert!(BoolIsh::Str("True".to_string()).truthy());
    assert!(!BoolIsh::Str("0".to_string()).truthy());
    assert!(!BoolIsh::Str("yes".to_string()).truthy());
    assert!(!BoolIsh::Str(" 1".to_string()).truthy());
}

#[test]
fn human_size_examples() {
    assert_eq!(human_size(0), "-");
    assert_eq!(human_size(1), "1B");
    assert_eq!(human_size(1023), "1023B");
    assert_eq!(human_size(1024), "1.0K");
    assert_eq!(human_size(1536), "1.5K");
    assert_eq!(human_size(1280), "1.2K");
    assert_eq!(human_size(1048575), "1024.0K");
    assert_eq!(human_size(500107862016), "465.8G");
    assert_eq!(human_size(u64::MAX), "16384.0P");
}

#[test]
fn human_size_matches_float_formatting() {
    let mut samples: Vec<u64> = Vec::new();
    for k in 0..64u32 {
        let p = 1u64 << k;
        for d in [0u64, 1, 2, 3, 5, 7, 51, 52, 100, 511, 512, 513] {
            samples.push(p.saturating_add(d));
            samples.push(p.saturating_sub(d));
            samples.push(p.saturating_mul(3).saturating_add(d));
            samples.push((p / 4).saturating_mul(5).saturating_add(d));
        }
    }
    let mut x: u64 = 0x9E37_79B9_7F4A_7C15;
    for _ in 0..20000 {
        x ^= x << 13;
        x ^= x >> 7;
        x ^= x << 17;
        samples.push(x >> (x % 64));
    }
    for b in [1280u64, 1331, 1126, 2_621_440, 9_007_199_254_740_993, u64::MAX, u64::MAX - 1] {
        samples.push(b);
    }
    for b in samples {
        assert_eq!(human_size(b), float_human_size(b), "bytes = {b}");
    }
}

#[test]
fn devices_become_sorted_disks() {
    let devices = vec![
        device("sdc", Some("disk")),
        device("sda", Some("disk")),
        device("sda1", Some("part")),
        device("zram0", Some("disk")),
        device("sdb", Some("disk")),
        device("sr0", Some("rom")),
        device("loop0", None),
    ];
    let disks = disks_from_devices(devices, Some("sda".to_string()));
    let names: Vec<&str> = disks.iter().map(|d| d.name.as_str()).collect();
    assert_eq!(names, vec!["sdb", "sdc", "sda"]);
    assert!(disks[2].is_live);
    assert!(!disks[0].is_live);
    assert_eq!(disks[0].size, "465.8G");
    assert_eq!(disks[0].model, "Samsung SSD");
    assert_eq!(disks[0].tran, "sata");
    assert!(!disks[0].rotational);
}

#[test]
fn missing_columns_take_defaults() {
    let d = LsblkDevice {
        name: "vda".to_string(),
        size: None,
        model: None,
        tran: None,
        rota: None,
        dtype: Some("disk".to_string()),
    };
    let disks = disks_from_devices(vec![d], None);
    assert_eq!(disks.len(), 1);
    assert_eq!(disks[0].size, "-");
    assert_eq!(disks[0].model, "");
    assert_eq!(disks[0].tran, "");
    assert!(disks[0].rotational);
    assert!(!disks[0].is_live);
}

#[test]
fn first_nonblank_line_trims() {
    assert_eq!(first_nonblank_line("\n  \n  /dev/sdb1  \nnext\n"), Some("/dev/sdb1".to_string()));
    assert_eq!(first_nonblank_line("sda\r\n"), Some("sda".to_string()));
    assert_eq!(first_nonblank_line(""), None);
    assert_eq!(first_nonblank_line(" \n\t\n"), None);
}
