use wmde_settings::hardware::firmware::{
    chassis_type_name, chassis_type_of, decode_secure_boot, efivar_byte, parse_microcode,
    probe_secure_boot,
};
use wmde_settings::hardware::util::Attr;
use wmde_settings::hardware::SecureBoot;

#[test]
fn chassis_table_covers_the_smbios_range() {
    assert_eq!(chassis_type_name(3), Some("Desktop"));
    assert_eq!(chassis_type_name(10), Some("Notebook"));
    assert_eq!(chassis_type_name(31), Some("Convertible"));
    assert_eq!(chassis_type_name(36), Some("Stick PC"));
    assert_eq!(chassis_type_name(0), None);
    assert_eq!(chassis_type_name(37), None);
    assert_eq!(chassis_type_name(255), None);
}

#[test]
fn secure_boot_reads_the_byte_after_the_attribute_mask() {
    let disabled: &[u8] = &[6, 0, 0, 0, 0];
    let enabled: &[u8] = &[6, 0, 0, 0, 1];
    assert_eq!(decode_secure_boot(Some(enabled), Some(disabled)), SecureBoot::Enabled);
    assert_eq!(decode_secure_boot(Some(disabled), Some(disabled)), SecureBoot::Disabled);
    assert_eq!(decode_secure_boot(Some(disabled), Some(enabled)), SecureBoot::SetupMode);
    assert_eq!(decode_secure_boot(Some(enabled), Some(enabled)), SecureBoot::Enabled);
}

#[test]
fn secure_boot_survives_short_and_missing_buffers() {
    assert_eq!(decode_secure_boot(Some(&[6, 0, 0, 0]), None), SecureBoot::Unknown);
    assert_eq!(decode_secure_boot(Some(&[]), None), SecureBoot::Unknown);
    assert_eq!(decode_secure_boot(None, None), SecureBoot::Unknown);
    assert_eq!(decode_secure_boot(Some(&[6, 0, 0, 0, 0]), None), SecureBoot::Disabled);
}

#[test]
fn microcode_takes_the_first_revision_only() {
    let cpuinfo = "processor\t: 0\nmodel name\t: Test CPU\nmicrocode\t: 0x133\n\
                   processor\t: 1\nmicrocode\t: 0x133\n";
    assert_eq!(parse_microcode(cpuinfo), Some("0x133".to_owned()));
    assert_eq!(parse_microcode("processor\t: 0\nBogoMIPS\t: 48.00\n"), None);
    assert_eq!(parse_microcode("microcode\t: \n"), None);
}

#[test]
fn legacy_bios_has_no_secure_boot_and_the_lock_bit_is_cleared() {
    assert_eq!(probe_secure_boot(false, Some(&[6, 0, 0, 0, 1]), None), SecureBoot::NotUefi);
    assert_eq!(probe_secure_boot(true, Some(&[6, 0, 0, 0, 1]), None), SecureBoot::Enabled);
    assert_eq!(efivar_byte(&[1, 2, 3, 4, 5, 6]), Some(5));
    assert_eq!(efivar_byte(&[1, 2, 3, 4]), None);
    // Bit 7 is the "chassis lock present" flag, not part of the type.
    assert_eq!(chassis_type_of(&Attr::Text("137\n".to_owned())), Some(9));
    assert_eq!(chassis_type_of(&Attr::Text("3".to_owned())), Some(3));
    assert_eq!(chassis_type_of(&Attr::Text("300".to_owned())), None);
    assert_eq!(chassis_type_of(&Attr::Denied), None);
}
