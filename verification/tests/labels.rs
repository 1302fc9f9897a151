use wmde_settings::hardware::firmware::{probe, FirmwareSources};
use wmde_settings::hardware::labels::{
    board_label, chassis_label, firmware_type_label, secure_boot_label, tpm_label, value_label,
    Words,
};
use wmde_settings::hardware::util::Attr;
use wmde_settings::hardware::{SecureBoot, Tpm, Value};

fn words() -> Words {
    Words {
        unknown: "unknown".into(),
        requires_root: "requires root".into(),
        legacy: "legacy BIOS".into(),
        enabled: "enabled".into(),
        disabled: "disabled".into(),
        setup_mode: "setup mode".into(),
        not_applicable: "n/a".into(),
        present: "present".into(),
        absent: "absent".into(),
    }
}

fn text(s: &str) -> Attr {
    Attr::Text(format!("{s}\n"))
}

fn sources() -> FirmwareSources {
    FirmwareSources {
        bios_vendor: text("American Megatrends Inc."),
        bios_version: text("1663"),
        bios_date: text("02/13/2024"),
        bios_release: text("5.32"),
        board_vendor: text("ASUSTeK COMPUTER INC."),
        board_name: text("TUF GAMING Z790-PRO WIFI"),
        board_version: text("Rev 1.xx"),
        board_serial: Attr::Denied,
        chassis_vendor: text("Default string"),
        chassis_version: text("Default string"),
        chassis_serial: Attr::Denied,
        chassis_type: text("3"),
        product_serial: Attr::Denied,
        product_uuid: Attr::Denied,
        uefi: true,
        fw_platform_size: text("64"),
        secure_boot: Some(vec![6, 0, 0, 0, 1]),
        setup_mode: Some(vec![6, 0, 0, 0, 0]),
        tpm: Some(Tpm { device: "tpm0".into(), version_major: Some("2".into()) }),
        cpuinfo: Some("processor\t: 0\nmicrocode\t: 0x129\n".into()),
    }
}

#[test]
fn firmware_labels_read_like_the_page() {
    let w = words();
    let fw = probe(sources());
    assert_eq!(board_label(&fw, &w), "ASUSTeK COMPUTER INC. TUF GAMING Z790-PRO WIFI");
    assert_eq!(chassis_label(&fw, &w), "Desktop (3)");
    assert_eq!(firmware_type_label(&fw, &w), "UEFI (64-bit)");
    assert_eq!(secure_boot_label(fw.secure_boot, &w), "enabled");
    assert_eq!(tpm_label(&fw, &w), "present 2");
    assert_eq!(value_label(&fw.board_serial, &w), "requires root");
    assert_eq!(value_label(&fw.chassis_vendor, &w), "unknown");
    assert_eq!(value_label(&fw.bios_version, &w), "1663");
}

#[test]
fn missing_firmware_facts_fall_back() {
    let w = words();
    let mut src = sources();
    src.board_vendor = Attr::Missing;
    src.chassis_type = text("99");
    src.uefi = false;
    src.fw_platform_size = Attr::Missing;
    src.tpm = None;
    let fw = probe(src);
    assert_eq!(board_label(&fw, &w), "TUF GAMING Z790-PRO WIFI");
    assert_eq!(chassis_label(&fw, &w), "99");
    assert_eq!(firmware_type_label(&fw, &w), "legacy BIOS");
    assert_eq!(secure_boot_label(fw.secure_boot, &w), "n/a");
    assert_eq!(secure_boot_label(SecureBoot::SetupMode, &w), "setup mode");
    assert_eq!(tpm_label(&fw, &w), "absent");
    assert_eq!(value_label(&Value::Unavailable, &w), "unknown");
}
