use wmde_settings::hardware::util::{
    attr_trim, is_placeholder, parse_env_file, read_bool, read_hex, read_hex16, read_hex8,
    read_i64, read_u32, read_u64, split_duration, trim_attr, unescape_octal, Attr,
};

#[test]
fn octal_unescape_handles_spaces_and_backslashes() {
    assert_eq!(unescape_octal(r"/mnt/My\040Disk"), "/mnt/My Disk");
    assert_eq!(unescape_octal(r"/a\134b"), r"/a\b");
    assert_eq!(unescape_octal("/plain/path"), "/plain/path");
    assert_eq!(unescape_octal(r"/tail\"), r"/tail\");
}

#[test]
fn octal_unescape_keeps_text_without_escapes() {
    assert_eq!(unescape_octal("/mnt/Café"), "/mnt/Café");
    assert_eq!(unescape_octal("é"), "é");
    assert_eq!(unescape_octal(r"/mnt/Café\040Photos"), "/mnt/Café Photos");
}

#[test]
fn octal_unescape_keeps_escapes_that_are_not_octal() {
    assert_eq!(unescape_octal(r"/a\9zz"), r"/a\9zz");
    // 0o400 does not fit in a byte.
    assert_eq!(unescape_octal(r"\400"), r"\400");
    assert_eq!(unescape_octal(r"\011x"), "\tx");
}

#[test]
fn placeholder_detection_catches_the_common_oem_junk() {
    assert!(is_placeholder("To be filled by O.E.M."));
    assert!(is_placeholder("System Product Name"));
    assert!(is_placeholder("Default string"));
    assert!(is_placeholder("  "));
    assert!(!is_placeholder("TUF GAMING Z790-PRO WIFI"));
}

#[test]
fn env_file_parsing_strips_quotes() {
    let parsed = parse_env_file("# comment\nNAME=\"Arch Linux\"\nID=arch\n\n");
    assert_eq!(parsed.len(), 2);
    assert_eq!(parsed[0], ("NAME".into(), "Arch Linux".into()));
    assert_eq!(parsed[1], ("ID".into(), "arch".into()));
}

#[test]
fn env_file_parsing_skips_lines_without_a_separator() {
    let parsed = parse_env_file("  KEY = 'v' \nnot a pair\n=empty\n");
    assert_eq!(parsed.len(), 2);
    assert_eq!(parsed[0], ("KEY".into(), "v".into()));
    assert_eq!(parsed[1], ("".into(), "empty".into()));
}

#[test]
fn durations_split_into_days_hours_minutes() {
    assert_eq!(split_duration(0), (0, 0, 0));
    assert_eq!(split_duration(312_052), (3, 14, 40));
    assert_eq!(split_duration(86_399), (0, 23, 59));
}

#[test]
fn attributes_are_trimmed_and_empty_ones_are_absent() {
    assert_eq!(trim_attr("  Intel \n").as_deref(), Some("Intel"));
    assert_eq!(trim_attr(" \n"), None);
    assert_eq!(attr_trim(&Attr::Denied), None);
    assert_eq!(attr_trim(&Attr::Text("x\n".into())).as_deref(), Some("x"));
}

#[test]
fn numeric_attributes_parse_in_their_base() {
    let t = |s: &str| Attr::Text(s.to_string());
    assert_eq!(read_hex(&t("0x030000\n")), Some(0x03_0000));
    assert_eq!(read_hex(&t("0b05\n")), Some(0x0b05));
    assert_eq!(read_hex16(&t("0x10000\n")), None);
    assert_eq!(read_hex16(&t("0x10de\n")), Some(0x10de));
    assert_eq!(read_hex8(&t("ff\n")), Some(0xff));
    assert_eq!(read_hex8(&t("100\n")), None);
    assert_eq!(read_u64(&t("512\n")), Some(512));
    assert_eq!(read_u32(&t("4294967296\n")), None);
    assert_eq!(read_i64(&t("-1\n")), Some(-1));
    assert_eq!(read_bool(&t("1\n")), Some(true));
    assert_eq!(read_bool(&t("0\n")), Some(false));
    assert_eq!(read_bool(&t("2\n")), None);
    assert_eq!(read_u64(&Attr::Missing), None);
}
