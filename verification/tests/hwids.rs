use wmde_settings::hardware::hwids::{HwIds, IdTable, Wanted};

const PCI_FIXTURE: &[u8] = b"\
#\tList of PCI IDs
#\tVersion: 2026.07.01

10de  NVIDIA Corporation
\t1c03  GP106 [GeForce GTX 1060 6GB]
\t\t1043 8562  GTX1060-DC2O6G
\t\t1458 3739  GeForce GTX 1060 6GB
\t1c04  GP106 [GeForce GTX 1060 5GB]
8086  Intel Corporation
\t9a49  TigerLake-LP GT2 [Iris Xe Graphics]

# Device classes
C 01  Mass storage controller
\t06  SATA controller
\t\t00  Vendor specific
\t\t01  AHCI 1.0
\t08  Non-Volatile memory controller
\t\t02  NVM Express
C 03  Display controller
\t00  VGA compatible controller
\t\t00  VGA controller
\t02  3D controller
";

const USB_FIXTURE: &[u8] = b"\
# usb.ids
046d  Logitech, Inc.
\tc52b  Unifying Receiver
\t\t00  Keyboard interface
1d6b  Linux Foundation
\t0002  2.0 root hub
C 03  Human Interface Device
\t00  No Subclass
\t\t01  Keyboard
\t01  Boot Interface Subclass
\t\t02  Mouse
C 09  Hub
\t00  Unused
\t\t00  Full speed (or root) hub
AT 00  Reserved
HID 01  Monitor
L 0001  Arabic
\t01  Saudi Arabia
\t02  Iraq
VT 0100  Vendor
";

fn pci_wanted() -> Wanted {
    let mut wanted = Wanted::new();
    wanted.add_pci_vendor(0x10de);
    wanted.add_pci_device(0x10de, 0x1c03);
    wanted.add_pci_subsystem(0x10de, 0x1c03, 0x1043, 0x8562);
    wanted
}

fn usb_wanted() -> Wanted {
    let mut wanted = Wanted::new();
    wanted.add_usb_vendor(0x046d);
    wanted.add_usb_vendor(0x0001);
    wanted.add_usb_device(0x046d, 0xc52b);
    wanted
}

fn loaded_pci() -> HwIds {
    let mut ids = HwIds::new();
    ids.parse_pci(PCI_FIXTURE, &pci_wanted());
    ids
}

fn loaded_usb() -> HwIds {
    let mut ids = HwIds::new();
    ids.parse_usb(USB_FIXTURE, &usb_wanted());
    ids
}

#[test]
fn pci_nesting_resolves_vendor_device_and_subsystem() {
    let ids = loaded_pci();
    assert_eq!(ids.pci_vendor(0x10de), Some("NVIDIA Corporation"));
    assert_eq!(ids.pci_device(0x10de, 0x1c03), Some("GP106 [GeForce GTX 1060 6GB]"));
    assert_eq!(ids.pci_subsystem(0x10de, 0x1c03, 0x1043, 0x8562), Some("GTX1060-DC2O6G"));
}

#[test]
fn pci_ids_outside_the_wanted_set_are_not_allocated() {
    let ids = loaded_pci();
    assert_eq!(ids.pci_vendor(0x8086), None);
    assert_eq!(ids.pci_device(0x10de, 0x1c04), None);
    assert_eq!(ids.pci_subsystem(0x10de, 0x1c03, 0x1458, 0x3739), None);
    assert_eq!(ids.len_of(IdTable::PciVendors), 1);
    assert_eq!(ids.len_of(IdTable::PciDevices), 1);
    assert_eq!(ids.len_of(IdTable::PciSubsystems), 1);
}

#[test]
fn pci_class_degrades_and_drops_redundant_progif() {
    let ids = loaded_pci();
    assert_eq!(ids.pci_class(0x01, 0x06, 0x01).as_deref(), Some("SATA controller - AHCI 1.0"));
    assert_eq!(ids.pci_class(0x01, 0x06, 0x77).as_deref(), Some("SATA controller"));
    assert_eq!(ids.pci_class(0x01, 0x06, 0x00).as_deref(), Some("SATA controller"));
    assert_eq!(ids.pci_class(0x03, 0x02, 0x00).as_deref(), Some("3D controller"));
    assert_eq!(ids.pci_class(0x03, 0x77, 0x00).as_deref(), Some("Display controller"));
    assert_eq!(ids.pci_class(0x03, 0x00, 0x00).as_deref(), Some("VGA compatible controller"));
    assert_eq!(ids.pci_class(0xff, 0x00, 0x00), None);
}

#[test]
fn usb_vendor_tree_and_wanted_filter() {
    let ids = loaded_usb();
    assert_eq!(ids.usb_vendor(0x046d), Some("Logitech, Inc."));
    assert_eq!(ids.usb_device(0x046d, 0xc52b), Some("Unifying Receiver"));
    assert_eq!(ids.usb_vendor(0x1d6b), None);
}

#[test]
fn usb_non_class_sections_are_not_read_as_vendors() {
    let ids = loaded_usb();
    assert_eq!(ids.usb_vendor(0x0001), None);
    assert_eq!(ids.usb_device(0x0001, 0x01), None);
    assert_eq!(ids.len_of(IdTable::UsbVendors), 1);
    assert_eq!(ids.len_of(IdTable::UsbDevices), 1);
    assert_eq!(ids.len_of(IdTable::UsbClasses), 2);
}

#[test]
fn usb_class_leads_with_the_base_class() {
    let ids = loaded_usb();
    assert_eq!(ids.usb_class(0x03, 0x00, 0x01).as_deref(), Some("Human Interface Device - Keyboard"));
    assert_eq!(
        ids.usb_class(0x03, 0x01, 0x02).as_deref(),
        Some("Human Interface Device - Boot Interface Subclass - Mouse")
    );
    assert_eq!(ids.usb_class(0x03, 0x77, 0x77).as_deref(), Some("Human Interface Device"));
    assert_eq!(ids.usb_class(0x09, 0x00, 0x00).as_deref(), Some("Hub - Full speed (or root) hub"));
    assert_eq!(ids.usb_class(0x08, 0x06, 0x50), None);
}

#[test]
fn pnp_lookup_is_case_insensitive() {
    let mut ids = HwIds::new();
    ids.parse_pnp(b"SAM\tSamsung Electric Company\nACR\tAcer Technologies\ninu\tInovatec S.p.A.\n");
    assert_eq!(ids.pnp_vendor("SAM"), Some("Samsung Electric Company"));
    assert_eq!(ids.pnp_vendor("acr"), Some("Acer Technologies"));
    assert_eq!(ids.pnp_vendor("INU"), Some("Inovatec S.p.A."));
    assert_eq!(ids.pnp_vendor("ZZZ"), None);
}

#[test]
fn latin1_bytes_do_not_truncate_the_parse() {
    let mut data = Vec::from(&b"1234  Caf"[..]);
    data.push(0xe9);
    data.extend_from_slice(b" SA\n5678  Later Vendor\n");
    let mut wanted = Wanted::new();
    wanted.add_pci_vendor(0x1234);
    wanted.add_pci_vendor(0x5678);
    let mut ids = HwIds::new();
    ids.parse_pci(&data, &wanted);
    assert_eq!(ids.pci_vendor(0x1234), Some("Caf\u{fffd} SA"));
    assert_eq!(ids.pci_vendor(0x5678), Some("Later Vendor"));
}

#[test]
fn utf8_names_survive_the_byte_parse() {
    let mut wanted = Wanted::new();
    wanted.add_pci_vendor(0x1234);
    let mut ids = HwIds::new();
    ids.parse_pci("1234  Café Ünïcode\r\n".as_bytes(), &wanted);
    assert_eq!(ids.pci_vendor(0x1234), Some("Café Ünïcode"));
}

#[test]
fn empty_load_is_not_available() {
    let ids = HwIds::new();
    assert!(!ids.available());
    assert_eq!(ids.pci_vendor(0x8086), None);
    assert_eq!(ids.pci_class(0x03, 0x00, 0x00), None);
    assert_eq!(ids.usb_class(0x09, 0x00, 0x00), None);
    assert_eq!(ids.pnp_vendor("SAM"), None);
}

#[test]
fn malformed_lines_are_skipped() {
    let mut wanted = Wanted::new();
    wanted.add_pci_vendor(0x8086);
    let mut ids = HwIds::new();
    ids.parse_pci(b"8086 Intel\nzzzz  Bogus\n8086  \n\n8086  Intel Corporation\n", &wanted);
    assert_eq!(ids.pci_vendor(0x8086), Some("Intel Corporation"));
    assert_eq!(ids.len_of(IdTable::PciVendors), 1);
}

#[test]
fn load_reads_whichever_files_were_there() {
    let ids = HwIds::load(Some(PCI_FIXTURE), None, Some(b"DEL\tDell Inc.\n"), &pci_wanted());
    assert!(ids.available());
    assert_eq!(ids.pci_vendor(0x10de), Some("NVIDIA Corporation"));
    assert_eq!(ids.pnp_vendor(" del "), Some("Dell Inc."));
    assert_eq!(ids.usb_class(0x09, 0, 0), None);
    let none = HwIds::load(None, None, None, &pci_wanted());
    assert!(!none.available());
}
