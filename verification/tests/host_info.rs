use dashdust::system::{disk_info, disk_kind_label, system_info, DiskMedium};

#[test]
fn disk_labels() {
    assert_eq!(disk_kind_label(DiskMedium::Ssd), "SSD");
    assert_eq!(disk_kind_label(DiskMedium::Hdd), "HDD");
    assert_eq!(disk_kind_label(DiskMedium::Unknown), "Unknown");
}

#[test]
fn disk_used_space() {
    let d = disk_info("nvme0n1".to_string(), DiskMedium::Ssd, 1000, 250, "/".to_string());
    assert_eq!(d.name, "nvme0n1");
    assert_eq!(d.kind, "SSD");
    assert_eq!(d.total, 1000);
    assert_eq!(d.used, 750);
    assert_eq!(d.mount, "/");
    let over = disk_info("sda".to_string(), DiskMedium::Hdd, 100, 300, "/mnt".to_string());
    assert_eq!(over.used, 0);
}

#[test]
fn system_info_defaults_to_empty_text() {
    let s = system_info(Some("Linux".to_string()), None, Some("x86_64".to_string()), None, 42);
    assert_eq!(s.os, "Linux");
    assert_eq!(s.kernel, "");
    assert_eq!(s.arch, "x86_64");
    assert_eq!(s.hostname, "");
    assert_eq!(s.uptime, 42);
}
