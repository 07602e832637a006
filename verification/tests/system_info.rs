use mission_center::system_info::{
    clean, combined, device_specs, device_subtitle, device_title, disk_kind,
    format_kernel_release, hardware_sections, push, software_sections, summary_text, AboutInfo,
    CpuFacts, DiskFacts, DiskKind, FirmwareFacts, GpuFacts, HardwareFacts, InfoEntry,
    InfoSection, Measured, MemoryFacts, MemoryModule, OsInfo, sysfs_value,
};

fn some(s: &str) -> Option<String> {
    Some(s.to_string())
}

fn measured(value: u64, text: &str) -> Measured {
    Measured { value, text: text.to_string() }
}

fn entries(section: &InfoSection) -> Vec<(String, String)> {
    section
        .entries
        .iter()
        .map(|e| (e.name.clone(), e.value.clone()))
        .collect()
}

fn pairs(list: &[(&str, &str)]) -> Vec<(String, String)> {
    list.iter().map(|(a, b)| (a.to_string(), b.to_string())).collect()
}

#[test]
fn clean_drops_blank_values_and_placeholders() {
    assert_eq!(clean(None), None);
    assert_eq!(clean(some("   ")), None);
    assert_eq!(clean(some("None")), None);
    assert_eq!(clean(some(" Not Specified ")), None);
    assert_eq!(clean(some("To Be Filled By O.E.M.")), None);
    assert_eq!(clean(some(" ASUSTeK ")), some(" ASUSTeK "));
    assert_eq!(clean(some("Nonexistent")), some("Nonexistent"));
}

#[test]
fn combined_joins_the_values_that_are_there() {
    assert_eq!(combined(vec![some("Lenovo"), some("ThinkPad")]), some("Lenovo ThinkPad"));
    assert_eq!(combined(vec![None, some("ThinkPad")]), some("ThinkPad"));
    assert_eq!(combined(vec![None, None]), None);
}

#[test]
fn push_adds_only_meaningful_values() {
    let mut list: Vec<InfoEntry> = Vec::new();
    push(&mut list, "Model", some("X1"));
    push(&mut list, "Revision", some("none"));
    push(&mut list, "Vendor", None);
    assert_eq!(list.len(), 1);
    assert_eq!(list[0].name, "Model");
    assert_eq!(list[0].value, "X1");
}

#[test]
fn kernel_line_joins_type_and_release() {
    let os = OsInfo {
        os_type: some("Linux"),
        kernel_release: some("6.9.1"),
        ..Default::default()
    };
    assert_eq!(format_kernel_release(&os), some("Linux 6.9.1"));
}

#[test]
fn software_sections_always_come_in_three() {
    let mut about = AboutInfo::default();
    about.device_info.hostname = some("box");
    about.device_info.vendor = some("Framework");
    about.os_info.name = some("Fedora");
    about.os_info.version = some("40");
    about.de_info.session_type = some("wayland");
    let sections = software_sections(&about);
    assert_eq!(sections.len(), 3);
    assert_eq!(sections[0].title, "System");
    assert_eq!(
        entries(&sections[0]),
        pairs(&[
            ("Host Name", "box"),
            ("Device", "Framework"),
            ("Operating System", "Fedora"),
            ("OS Version", "40")
        ])
    );
    assert!(sections[1].entries.is_empty());
    assert_eq!(entries(&sections[2]), pairs(&[("Session Type", "wayland")]));
}

fn cpu() -> CpuFacts {
    CpuFacts {
        name: some("AMD Ryzen 7 7840U"),
        logical_processors: 16,
        socket_count: Some(1),
        frequency_driver: some("amd-pstate"),
        base_frequency: Some(measured(3_300_000, "3.30 GHz")),
        virtualization_technology: some("AMD-V"),
        l1_combined_cache: Some(measured(512 * 1024, "512 KiB")),
        l2_cache: Some(measured(0, "0 B")),
        l3_cache: Some(measured(16 << 20, "16 MiB")),
    }
}

fn hardware() -> HardwareFacts {
    HardwareFacts {
        firmware: FirmwareFacts {
            board_vendor: some("LENOVO"),
            board_name: some("21K5"),
            bios_version: some("R2AET45W"),
            ..Default::default()
        },
        cpu: cpu(),
        memory: MemoryFacts {
            mem_total: measured(32 << 30, "32.0 GiB"),
            max_devices: 4,
            devices: vec![MemoryModule {
                size: measured(16 << 30, "16.0 GiB"),
                ram_type: "DDR5".to_string(),
                speed: 5600,
                form_factor: "SODIMM".to_string(),
                locator: "DIMM A".to_string(),
            }],
        },
        gpus: vec![
            GpuFacts {
                id: "0000:c1:00.0".to_string(),
                vendor_id: 0x1002,
                device_id: 0x15bf,
                device_name: None,
                total_memory: Some(measured(512 << 20, "512 MiB")),
                max_pcie_gen: Some(4),
                max_pcie_lanes: Some(16),
            },
            GpuFacts {
                id: "0000:01:00.0".to_string(),
                vendor_id: 0x10de,
                device_id: 0x2560,
                device_name: some("GeForce RTX 3060"),
                total_memory: None,
                max_pcie_gen: None,
                max_pcie_lanes: Some(8),
            },
        ],
        disks: vec![
            DiskFacts {
                id: "sdb".to_string(),
                model: some("Not Specified"),
                capacity: measured(1 << 40, "1.0 TiB"),
                kind: Some(DiskKind::Hdd),
                is_system: false,
            },
            DiskFacts {
                id: "nvme0n1".to_string(),
                model: some("Samsung 990"),
                capacity: measured(2 << 40, "2.0 TiB"),
                kind: Some(DiskKind::NvMe),
                is_system: true,
            },
        ],
    }
}

#[test]
fn hardware_sections_describe_every_part() {
    let sections = hardware_sections(&hardware());
    let titles: Vec<&str> = sections.iter().map(|s| s.title.as_str()).collect();
    assert_eq!(
        titles,
        vec!["Motherboard", "BIOS / UEFI", "Processor", "Memory", "Graphics", "Storage"]
    );
    assert_eq!(
        entries(&sections[0]),
        pairs(&[("Manufacturer", "LENOVO"), ("Model", "21K5")])
    );
    assert_eq!(
        entries(&sections[2]),
        pairs(&[
            ("Model", "AMD Ryzen 7 7840U"),
            ("Topology", "16 logical processors, 1 socket"),
            ("Base Frequency", "3.30 GHz"),
            ("Virtualization", "AMD-V"),
            ("Cache", "L1 512 KiB / L3 16 MiB"),
        ])
    );
    assert_eq!(
        entries(&sections[3]),
        pairs(&[
            ("Installed", "32.0 GiB"),
            ("Slots", "1 populated / 4 total"),
            ("Module 1", "DIMM A — 16.0 GiB · DDR5 · 5600 MT/s · SODIMM"),
        ])
    );
    assert_eq!(
        entries(&sections[4]),
        pairs(&[
            ("GPU 1", "GeForce RTX 3060"),
            ("GPU 2", "AMD 15bf · 512 MiB VRAM · PCIe 4.0 x16"),
        ])
    );
    assert_eq!(
        entries(&sections[5]),
        pairs(&[
            ("Drive 1 (nvme0n1)", "Samsung 990 · 2.0 TiB · NVMe · System disk"),
            ("Drive 2 (sdb)", "1.0 TiB · HDD"),
        ])
    );
}

#[test]
fn empty_hardware_sections_are_left_out() {
    let mut info = hardware();
    info.firmware = FirmwareFacts::default();
    info.gpus.clear();
    let titles: Vec<String> = hardware_sections(&info).into_iter().map(|s| s.title).collect();
    assert_eq!(titles, vec!["Processor", "Memory", "Storage"]);
}

#[test]
fn bogomips_and_tiny_frequencies_are_not_shown() {
    let mut info = hardware();
    info.cpu.frequency_driver = some("bogomips");
    info.cpu.socket_count = Some(2);
    let sections = hardware_sections(&info);
    let processor = entries(&sections[2]);
    assert!(processor.iter().all(|(name, _)| name != "Base Frequency"));
    assert!(processor.contains(&(
        "Topology".to_string(),
        "16 logical processors, 2 sockets".to_string()
    )));
    info.cpu.frequency_driver = None;
    info.cpu.base_frequency = Some(measured(99_999, "0.10 GHz"));
    let processor = entries(&hardware_sections(&info)[2]);
    assert!(processor.iter().all(|(name, _)| name != "Base Frequency"));
}

#[test]
fn disk_kinds_have_names() {
    assert_eq!(disk_kind(Some(DiskKind::ThumbDrive)), Some("Thumb Drive"));
    assert_eq!(disk_kind(Some(DiskKind::EMmc)), Some("eMMC"));
    assert_eq!(disk_kind(None), None);
}

#[test]
fn title_subtitle_and_specs() {
    let info = hardware();
    let mut about = AboutInfo::default();
    assert_eq!(device_title(&info, &about), "21K5");
    let mut bare = hardware();
    bare.firmware.board_name = None;
    about.device_info.model = some("ThinkPad Z13");
    assert_eq!(device_title(&bare, &about), "ThinkPad Z13");
    about.device_info.model = None;
    assert_eq!(device_title(&bare, &about), "AMD Ryzen 7 7840U");
    bare.cpu.name = None;
    assert_eq!(device_title(&bare, &about), "Computer");

    assert_eq!(device_subtitle(&about), "Linux");
    about.os_info.name = some("Fedora");
    assert_eq!(device_subtitle(&about), "Fedora");
    about.os_info.pretty_name = some("Fedora Linux 40");
    assert_eq!(device_subtitle(&about), "Fedora Linux 40");

    assert_eq!(
        device_specs(&info),
        vec!["AMD Ryzen 7 7840U", "32.0 GiB RAM", "GeForce RTX 3060"]
    );
}

#[test]
fn copied_summary_leaves_out_the_host_name() {
    let hardware = vec![InfoSection {
        title: "Memory".to_string(),
        entries: vec![InfoEntry { name: "Installed".to_string(), value: "8 GiB".to_string() }],
    }];
    let software = vec![InfoSection {
        title: "System".to_string(),
        entries: vec![
            InfoEntry { name: "Host Name".to_string(), value: "box".to_string() },
            InfoEntry { name: "Architecture".to_string(), value: "x86_64".to_string() },
        ],
    }];
    assert_eq!(
        summary_text(&hardware, &software),
        "Memory\nInstalled: 8 GiB\n\nSystem\nArchitecture: x86_64"
    );
}

#[test]
fn sysfs_values_are_trimmed_and_cleaned() {
    assert_eq!(sysfs_value(Some("  ASUSTeK COMPUTER INC.\n".into())), Some("ASUSTeK COMPUTER INC.".to_string()));
    assert_eq!(sysfs_value(Some("To Be Filled By O.E.M.\n".into())), None);
    assert_eq!(sysfs_value(Some("\n".into())), None);
    assert_eq!(sysfs_value(None), None);
}

#[test]
fn unicode_white_space_around_a_placeholder_is_trimmed() {
    assert_eq!(clean(Some("\u{3000}none\u{a0}\n".to_string())), None);
    assert_eq!(sysfs_value(Some("\u{2003}Dell Inc.\u{85}".to_string())), Some("Dell Inc.".to_string()));
}
