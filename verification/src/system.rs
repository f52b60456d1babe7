use vstd::prelude::*;

verus! {

/// The storage medium of a disk, as the platform reports it.
pub enum DiskMedium {
    Ssd,
    Hdd,
    Unknown,
}

/// A disk as the dashboard shows it.
pub struct DiskInfo {
    pub name: String,
    pub kind: String,
    pub total: u64,
    pub used: u64,
    pub mount: String,
}

/// The host's identity and how long it has been up.
pub struct SystemInfo {
    pub os: String,
    pub kernel: String,
    pub arch: String,
    pub hostname: String,
    pub uptime: u64,
}

/// The badge shown for a storage medium.
pub open spec fn medium_label(kind: DiskMedium) -> Seq<char> {
    match kind {
        DiskMedium::Ssd => seq!['S', 'S', 'D'],
        DiskMedium::Hdd => seq!['H', 'D', 'D'],
        DiskMedium::Unknown => seq!['U', 'n', 'k', 'n', 'o', 'w', 'n'],
    }
}

/// The text of an optional string, empty when absent.
pub open spec fn text_or_empty(s: Option<String>) -> Seq<char> {
    match s {
        Some(t) => t@,
        None => Seq::empty(),
    }
}

/// The badge shown for a storage medium: `"SSD"`, `"HDD"` or `"Unknown"`.
pub fn disk_kind_label(kind: DiskMedium) -> (label: String)
    ensures
        label@ == medium_label(kind),
        kind is Ssd ==> label@ == seq!['S', 'S', 'D'],
        kind is Hdd ==> label@ == seq!['H', 'D', 'D'],
        kind is Unknown ==> label@ == seq!['U', 'n', 'k', 'n', 'o', 'w', 'n'],
{
    match kind {
        DiskMedium::Ssd => {
            proof { reveal_strlit("SSD"); }
            String::from_str("SSD")
        },
        DiskMedium::Hdd => {
            proof { reveal_strlit("HDD"); }
            String::from_str("HDD")
        },
        DiskMedium::Unknown => {
            proof { reveal_strlit("Unknown"); }
            String::from_str("Unknown")
        },
    }
}

/// A disk's entry: the space in use is the capacity not reported
/// available, and nothing when more is reported available than exists.
pub fn disk_info(name: String, kind: DiskMedium, total: u64, available: u64, mount: String) -> (d:
    DiskInfo)
    ensures
        d.name == name,
        d.mount == mount,
        d.kind@ == medium_label(kind),
        d.total == total,
        d.used == if total >= available { total - available } else { 0 },
        d.used <= d.total,
{
    let used = if total >= available { total - available } else { 0 };
    DiskInfo { name, kind: disk_kind_label(kind), total, used, mount }
}

fn text_or_default(s: Option<String>) -> (t: String)
    ensures
        t@ == text_or_empty(s),
        s is Some ==> t == s->0,
{
    match s {
        Some(t) => t,
        None => String::new(),
    }
}

/// The host's identity, with an empty text for whatever the platform
/// could not tell.
pub fn system_info(
    os: Option<String>,
    kernel: Option<String>,
    arch: Option<String>,
    hostname: Option<String>,
    uptime: u64,
) -> (info: SystemInfo)
    ensures
        info.os@ == text_or_empty(os),
        info.kernel@ == text_or_empty(kernel),
        info.arch@ == text_or_empty(arch),
        info.hostname@ == text_or_empty(hostname),
        info.uptime == uptime,
        os is Some ==> info.os == os->0,
        os is None ==> info.os@.len() == 0,
        kernel is Some ==> info.kernel == kernel->0,
        kernel is None ==> info.kernel@.len() == 0,
        arch is Some ==> info.arch == arch->0,
        arch is None ==> info.arch@.len() == 0,
        hostname is Some ==> info.hostname == hostname->0,
        hostname is None ==> info.hostname@.len() == 0,
{
    SystemInfo {
        os: text_or_default(os),
        kernel: text_or_default(kernel),
        arch: text_or_default(arch),
        hostname: text_or_default(hostname),
        uptime,
    }
}

} // verus!
