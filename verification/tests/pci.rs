use wmde_settings::hardware::pci::{
    is_slot, parent_from_link, parse_lspci, read_device, scan, short_slot, split_class, PciSource,
};
use wmde_settings::hardware::util::Attr;

#[test]
fn class_is_split_as_24_bit() {
    assert_eq!(split_class(0x03_00_00), (0x03, 0x00, 0x00));
    assert_eq!(split_class(0x0c_03_30), (0x0c, 0x03, 0x30));
    assert_eq!(split_class(0x06_04_00), (0x06, 0x04, 0x00));
    assert_eq!(split_class(0), (0, 0, 0));
}

#[test]
fn lspci_blocks_are_parsed_with_and_without_modules() {
    let fixture = "\
00:14.2 RAM memory [0500]: Intel Corporation 700 Series Chipset Family Shared SRAM [8086:7a27] (rev 11)
\tSubsystem: ASUSTeK Computer Inc. Device [1043:8882]
01:00.0 VGA compatible controller [0300]: NVIDIA Corporation AD104 [GeForce RTX 4070 SUPER] [10de:2783] (rev a1)
\tSubsystem: ASUSTeK Computer Inc. Device [1043:8974]
\tKernel driver in use: nvidia
\tKernel modules: nouveau, nvidia_drm, nvidia
";
    let parsed = parse_lspci(fixture);
    assert_eq!(parsed.len(), 2);
    assert_eq!(parsed[0].0, "00:14.2");
    assert!(parsed[0].1.is_empty());
    assert_eq!(parsed[1].0, "01:00.0");
    assert_eq!(parsed[1].1, ["nouveau", "nvidia_drm", "nvidia"]);
}

#[test]
fn lspci_parser_accepts_full_slots_and_ignores_noise() {
    let fixture = "\
pcilib: sysfs: unable to read something
0000:0a:00.0 Non-Volatile memory controller [0108]: Sandisk Corp WD Blue SN580 [15b7:5041]
\tKernel modules: nvme
";
    let parsed = parse_lspci(fixture);
    assert_eq!(parsed.len(), 1);
    assert_eq!(parsed[0].0, "0000:0a:00.0");
    assert_eq!(parsed[0].1, ["nvme"]);
}

#[test]
fn slots_are_matched_across_the_domain_prefix() {
    assert_eq!(short_slot("0000:01:00.0"), "01:00.0");
    assert_eq!(short_slot("01:00.0"), "01:00.0");
    assert!(is_slot("00:1f.5"));
    assert!(is_slot("10000:00:00.0"));
    assert!(!is_slot("pcilib:"));
    assert!(!is_slot("Subsystem:"));
    assert!(!is_slot("00:1f.g"));
}

#[test]
fn parent_comes_from_the_sysfs_device_path() {
    assert_eq!(
        parent_from_link("../../../devices/pci0000:00/0000:00:1c.2/0000:07:00.0"),
        Some("0000:00:1c.2".to_owned())
    );
    assert_eq!(
        parent_from_link("../../../devices/pci0000:00/0000:00:00.0"),
        None
    );
    assert_eq!(
        parent_from_link("../../../devices/pci0000:00/0000:00:06.0/0000:02:00.0/0000:03:04.0"),
        Some("0000:02:00.0".to_owned())
    );
    assert_eq!(parent_from_link("0000:00:00.0"), None);
    assert_eq!(parent_from_link(""), None);
}

fn text(s: &str) -> Attr {
    Attr::Text(s.to_string())
}

fn source(slot: &str, vendor: Attr, class: &str) -> PciSource {
    PciSource {
        slot: slot.to_string(),
        vendor,
        device: text("0x2783\n"),
        class: text(class),
        subsystem_vendor: text("0x1043\n"),
        subsystem_device: Attr::Missing,
        revision: text("0xa1\n"),
        driver: Some("nvidia".to_string()),
        irq: text("0\n"),
        numa_node: text("-1\n"),
        drm_nodes: vec!["card1".to_string()],
        link: Some(format!("../../../devices/pci0000:00/0000:00:01.0/{slot}")),
    }
}

#[test]
fn a_device_reads_its_ids_and_needs_vendor_and_device() {
    let src = source("0000:01:00.0", text("0x10de\n"), "0x030000\n");
    let d = read_device(&src, vec!["nouveau".to_string()]).expect("identifiable");
    assert_eq!(d.slot, "0000:01:00.0");
    assert_eq!(d.parent.as_deref(), Some("0000:00:01.0"));
    assert_eq!((d.vendor_id, d.device_id), (0x10de, 0x2783));
    assert_eq!((d.class_base, d.class_sub, d.class_progif), (3, 0, 0));
    assert_eq!(d.subsystem_vendor_id, Some(0x1043));
    assert_eq!(d.subsystem_device_id, None);
    assert_eq!(d.revision, 0xa1);
    // IRQ 0 means "none assigned", a negative NUMA node means "no affinity".
    assert_eq!(d.irq, None);
    assert_eq!(d.numa_node, None);
    assert_eq!(d.modules, ["nouveau"]);
    assert_eq!(d.drm_nodes, ["card1"]);

    let unreadable = source("0000:02:00.0", Attr::Denied, "0x030000\n");
    assert!(read_device(&unreadable, Vec::new()).is_none());
}

#[test]
fn scan_takes_modules_from_lspci_by_short_slot() {
    let srcs = vec![
        source("0000:00:14.2", text("0x8086\n"), "0x050000\n"),
        source("0000:01:00.0", text("0x10de\n"), "0x030000\n"),
        source("0000:05:00.0", Attr::Missing, "0x030000\n"),
    ];
    let lspci = "\
00:14.2 RAM memory [0500]: Intel Corporation SRAM [8086:7a27]
01:00.0 VGA compatible controller [0300]: NVIDIA [10de:2783]
\tKernel modules: nouveau, nvidia
";
    let out = scan(&srcs, Some(lspci));
    assert_eq!(out.len(), 2);
    assert_eq!(out[0].slot, "0000:00:14.2");
    assert!(out[0].modules.is_empty());
    assert_eq!(out[1].slot, "0000:01:00.0");
    assert_eq!(out[1].modules, ["nouveau", "nvidia"]);

    let without = scan(&srcs, None);
    assert_eq!(without.len(), 2);
    assert!(without[1].modules.is_empty());
}

#[test]
fn scan_keeps_slot_order() {
    let srcs = vec![
        source("0000:00:02.0", text("0x8086\n"), "0x030000\n"),
        source("0000:00:14.0", Attr::Missing, "0x0c0330\n"),
        source("0000:00:1f.3", text("0x8086\n"), "0x040300\n"),
        source("0000:03:00.0", text("0x144d\n"), "0x010802\n"),
    ];
    let out = scan(&srcs, None);
    let slots: Vec<&str> = out.iter().map(|d| d.slot.as_str()).collect();
    assert_eq!(slots, ["0000:00:02.0", "0000:00:1f.3", "0000:03:00.0"]);
}
