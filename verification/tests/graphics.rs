use wmde_settings::hardware::graphics::{
    apply_edid, connector_name, descriptor_text, displays, first_version, manufacturer_code,
    module_dirs, modes, parse_edid, ConnectorSource, EDID_BASE_LEN,
};
use wmde_settings::hardware::hwids::HwIds;
use wmde_settings::hardware::util::Attr;
use wmde_settings::hardware::Display;

const EDID_HEADER: [u8; 8] = [0x00, 0xFF, 0xFF, 0xFF, 0xFF, 0xFF, 0xFF, 0x00];

fn synth_edid() -> [u8; EDID_BASE_LEN] {
    let mut edid = [0u8; EDID_BASE_LEN];
    edid[..8].copy_from_slice(&EDID_HEADER);
    edid[8] = 0x10;
    edid[9] = 0xAC;
    edid[12..16].copy_from_slice(&0x3132_4D4Cu32.to_le_bytes());
    edid[17] = 23;
    edid[21] = 52;
    edid[22] = 32;
    write_text_descriptor(&mut edid, 54, 0xFC, b"DELL U2412M");
    write_text_descriptor(&mut edid, 72, 0xFF, b"0FFXD3AE12ML");
    let sum = edid[..EDID_BASE_LEN - 1]
        .iter()
        .fold(0u8, |acc, &b| acc.wrapping_add(b));
    edid[EDID_BASE_LEN - 1] = sum.wrapping_neg();
    edid
}

fn write_text_descriptor(edid: &mut [u8; EDID_BASE_LEN], at: usize, tag: u8, text: &[u8]) {
    edid[at + 3] = tag;
    edid[at + 5..at + 5 + text.len()].copy_from_slice(text);
    edid[at + 5 + text.len()] = 0x0A;
    for byte in &mut edid[at + 6 + text.len()..at + 18] {
        *byte = b' ';
    }
}

#[test]
fn parses_a_well_formed_base_block() {
    let parsed = parse_edid(&synth_edid()).expect("valid block");
    assert_eq!(parsed.manufacturer.as_deref(), Some("DEL"));
    assert_eq!(parsed.model_name.as_deref(), Some("DELL U2412M"));
    assert_eq!(parsed.serial_string.as_deref(), Some("0FFXD3AE12ML"));
    assert_eq!(parsed.serial_number, Some(0x3132_4D4C));
    assert_eq!(parsed.year, Some(2013));
    assert_eq!(parsed.physical_mm, Some((520, 320)));
}

#[test]
fn rejects_bad_header_checksum_and_short_blobs() {
    let good = synth_edid();
    let mut wrong_header = good;
    wrong_header[1] = 0x00;
    assert_eq!(parse_edid(&wrong_header), None);
    let mut wrong_checksum = good;
    wrong_checksum[EDID_BASE_LEN - 1] = wrong_checksum[EDID_BASE_LEN - 1].wrapping_add(1);
    assert_eq!(parse_edid(&wrong_checksum), None);
    assert_eq!(parse_edid(&good[..127]), None);
    assert_eq!(parse_edid(&[]), None);
}

#[test]
fn absent_optional_fields_stay_none() {
    let mut edid = [0u8; EDID_BASE_LEN];
    edid[..8].copy_from_slice(&EDID_HEADER);
    edid[8] = 0x10;
    edid[9] = 0xAC;
    let sum = edid[..EDID_BASE_LEN - 1]
        .iter()
        .fold(0u8, |acc, &b| acc.wrapping_add(b));
    edid[EDID_BASE_LEN - 1] = sum.wrapping_neg();
    let parsed = parse_edid(&edid).expect("valid block");
    assert_eq!(parsed.serial_number, None);
    assert_eq!(parsed.serial_string, None);
    assert_eq!(parsed.model_name, None);
    assert_eq!(parsed.year, None);
    assert_eq!(parsed.physical_mm, None);
}

#[test]
fn manufacturer_bits_decode_to_three_letters() {
    assert_eq!(manufacturer_code(0x10AC).as_deref(), Some("DEL"));
    assert_eq!(manufacturer_code((1 << 10) | (2 << 5) | 3).as_deref(), Some("ABC"));
    assert_eq!(manufacturer_code(0x220E).as_deref(), Some("HPN"));
    assert_eq!(manufacturer_code(0x0000), None);
    assert_eq!(manufacturer_code(0xFFFF), None);
}

#[test]
fn descriptor_text_stops_at_the_terminator() {
    let mut descriptor = [b'X'; 18];
    descriptor[..3].copy_from_slice(&[0, 0, 0]);
    descriptor[3] = 0xFC;
    descriptor[4] = 0;
    descriptor[5..].copy_from_slice(b"OMEN 27k\n    ");
    assert_eq!(descriptor_text(&descriptor).as_deref(), Some("OMEN 27k"));
    let mut blank = [0u8; 18];
    blank[3] = 0xFF;
    blank[5..].copy_from_slice(b"             ");
    assert_eq!(descriptor_text(&blank), None);
}

#[test]
fn connector_names_drop_the_card_prefix() {
    assert_eq!(connector_name("card1-DP-1").as_deref(), Some("DP-1"));
    assert_eq!(connector_name("card0-HDMI-A-1").as_deref(), Some("HDMI-A-1"));
    assert_eq!(connector_name("card1"), None);
    assert_eq!(connector_name("renderD128"), None);
    assert_eq!(connector_name("controlD64"), None);
    assert_eq!(connector_name("version"), None);
    assert_eq!(connector_name("card1-"), None);
    assert_eq!(connector_name("card-DP-1"), None);
}

#[test]
fn non_printable_descriptor_bytes_become_spaces() {
    let mut descriptor = [0u8; 18];
    descriptor[3] = 0xFC;
    descriptor[5..].copy_from_slice(b"\x00AB\xe9C\x7f\n      ");
    assert_eq!(descriptor_text(&descriptor).as_deref(), Some("AB C"));
    assert_eq!(descriptor_text(&descriptor[..17]), None);
}

#[test]
fn modes_take_the_first_line_and_count_the_rest() {
    let (preferred, count) = modes(&Attr::Text("1920x1080\n1280x720\n\n 800x600 \n".to_owned()));
    assert_eq!(preferred.as_deref(), Some("1920x1080"));
    assert_eq!(count, 2);
    assert_eq!(modes(&Attr::Missing), (None, 0));
    assert_eq!(modes(&Attr::Text("  \n".to_owned())), (None, 0));
}

#[test]
fn module_version_tries_the_underscored_name_second() {
    assert_eq!(module_dirs("nvidia"), vec!["nvidia".to_owned()]);
    assert_eq!(
        module_dirs("nvidia-drm"),
        vec!["nvidia-drm".to_owned(), "nvidia_drm".to_owned()]
    );
    let reads = vec![Attr::Missing, Attr::Text(" 610.43.03\n".to_owned())];
    assert_eq!(first_version(&reads).as_deref(), Some("610.43.03"));
    assert_eq!(first_version(&vec![Attr::Denied]), None);
}

fn blank_display() -> Display {
    Display {
        connector: "DP-1".to_owned(),
        connected: true,
        make: None,
        model: None,
        serial: None,
        year: None,
        physical_mm: None,
        preferred_mode: None,
        mode_count: 0,
    }
}

#[test]
fn an_edid_names_the_monitor_through_pnp_ids() {
    let mut ids = HwIds::new();
    ids.parse_pnp(b"DEL\tDell Inc.\n");
    let mut display = blank_display();
    apply_edid(&mut display, parse_edid(&synth_edid()).unwrap(), &ids);
    assert_eq!(display.make.as_deref(), Some("Dell Inc."));
    assert_eq!(display.model.as_deref(), Some("DELL U2412M"));
    assert_eq!(display.serial.as_deref(), Some("0FFXD3AE12ML"));
    assert_eq!(display.year, Some(2013));
    assert_eq!(display.physical_mm, Some((520, 320)));

    // Unknown code: the code itself; no serial string: the number.
    let mut edid = parse_edid(&synth_edid()).unwrap();
    edid.serial_string = None;
    let mut display = blank_display();
    apply_edid(&mut display, edid, &HwIds::new());
    assert_eq!(display.make.as_deref(), Some("DEL"));
    assert_eq!(display.serial.as_deref(), Some("825380172"));
}

#[test]
fn displays_come_from_connector_entries() {
    let entries = vec![
        ConnectorSource {
            name: "card1-DP-1".to_owned(),
            status: Attr::Text("connected\n".to_owned()),
            modes: Attr::Text("2560x1440\n1920x1080\n".to_owned()),
            edid: Some(synth_edid().to_vec()),
        },
        ConnectorSource {
            name: "renderD128".to_owned(),
            status: Attr::Missing,
            modes: Attr::Missing,
            edid: None,
        },
        ConnectorSource {
            name: "card1-HDMI-A-1".to_owned(),
            status: Attr::Text("disconnected".to_owned()),
            modes: Attr::Missing,
            edid: Some(vec![1, 2, 3]),
        },
    ];
    let out = displays(&entries, &HwIds::new());
    assert_eq!(out.len(), 2);
    assert_eq!(out[0].connector, "DP-1");
    assert!(out[0].connected);
    assert_eq!(out[0].preferred_mode.as_deref(), Some("2560x1440"));
    assert_eq!(out[0].mode_count, 1);
    assert_eq!(out[0].model.as_deref(), Some("DELL U2412M"));
    assert_eq!(out[1].connector, "HDMI-A-1");
    assert!(!out[1].connected);
    assert_eq!(out[1].make, None);
}
