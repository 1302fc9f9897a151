//! Firmware facts: DMI/SMBIOS strings, UEFI vs legacy BIOS, Secure Boot, TPM, microcode.
//!
//! All of it comes from sysfs, so it works without root. The four DMI attributes the
//! kernel keeps at mode 0400 (`board_serial`, `chassis_serial`, `product_serial`,
//! `product_uuid`) are still attempted: a denied read becomes `Value::RequiresRoot`,
//! which is the honest thing to show.
use vstd::prelude::*;
use crate::num::parse_u32_spec;
use crate::text::{chars_of, lines, lines_of, split_once, split_once_at, string_of, trim_ws, trimmed, slice_to_vec, chars_eq, Class};
use super::util::{attr_text, is_placeholder_spec, read_u32, Attr};
use super::{value_of_attr, Firmware, FirmwareType, SecureBoot, Tpm, Value, ValueView};

verus! {

/// What the firmware probe read, one field per sysfs/procfs source.
pub struct FirmwareSources {
    pub bios_vendor: Attr,
    pub bios_version: Attr,
    pub bios_date: Attr,
    pub bios_release: Attr,
    pub board_vendor: Attr,
    pub board_name: Attr,
    pub board_version: Attr,
    pub board_serial: Attr,
    pub chassis_vendor: Attr,
    pub chassis_version: Attr,
    pub chassis_serial: Attr,
    pub chassis_type: Attr,
    pub product_serial: Attr,
    pub product_uuid: Attr,
    /// `/sys/firmware/efi` is a directory.
    pub uefi: bool,
    pub fw_platform_size: Attr,
    /// The `SecureBoot` efivar file, when readable.
    pub secure_boot: Option<Vec<u8>>,
    /// The `SetupMode` efivar file, when readable.
    pub setup_mode: Option<Vec<u8>>,
    /// The first TPM chip under `/sys/class/tpm`.
    pub tpm: Option<Tpm>,
    /// `/proc/cpuinfo`, when readable.
    pub cpuinfo: Option<String>,
}

/// A descriptive DMI string: as read, with OEM placeholders (`To be filled by O.E.M.`)
/// dropped.
pub open spec fn dmi_value(a: Attr) -> ValueView {
    match value_of_attr(a) {
        ValueView::Known(s) => if is_placeholder_spec(s) {
            ValueView::Unavailable
        } else {
            ValueView::Known(s)
        },
        other => other,
    }
}

/// A `u32` attribute.
pub open spec fn u32_attr(a: Attr) -> Option<u32> {
    match attr_text(a) {
        Some(t) => parse_u32_spec(t),
        None => None,
    }
}

/// The SMBIOS chassis-type code: the attribute as a byte, with bit 7 (the "chassis lock
/// present" flag, not part of the enumeration) cleared.
pub open spec fn chassis_code(a: Attr) -> Option<u8> {
    match u32_attr(a) {
        Some(v) => if v <= u8::MAX {
            Some((v as u8) & 0x7f)
        } else {
            None
        },
        None => None,
    }
}

/// `fw_platform_size`, when it fits in a byte.
pub open spec fn efi_bits_of(a: Attr) -> Option<u8> {
    match u32_attr(a) {
        Some(v) => if v <= u8::MAX {
            Some(v as u8)
        } else {
            None
        },
        None => None,
    }
}

/// The payload byte of an efivarfs variable: index 4, after the 4-byte attribute mask.
pub open spec fn efivar(d: Seq<u8>) -> Option<u8> {
    if d.len() > 4 {
        Some(d[4])
    } else {
        None
    }
}

pub open spec fn opt_bytes(o: Option<&[u8]>) -> Option<Seq<u8>> {
    match o {
        Some(d) => Some(d@),
        None => None,
    }
}

pub open spec fn opt_vec_bytes(o: Option<Vec<u8>>) -> Option<Seq<u8>> {
    match o {
        Some(d) => Some(d@),
        None => None,
    }
}

pub open spec fn secure_boot_state(secure_boot: Option<Seq<u8>>, setup_mode: Option<Seq<u8>>) -> SecureBoot {
    match secure_boot {
        Some(d) => match efivar(d) {
            Some(enabled) => if enabled == 1 {
                SecureBoot::Enabled
            } else if (match setup_mode {
                Some(m) => efivar(m) == Some(1u8),
                None => false,
            }) {
                SecureBoot::SetupMode
            } else {
                SecureBoot::Disabled
            },
            None => SecureBoot::Unknown,
        },
        None => SecureBoot::Unknown,
    }
}

/// Reads the payload byte of an efivarfs variable.
///
/// efivarfs prepends a 4-byte little-endian EFI attribute mask to every variable, so a
/// one-byte boolean is a 5-byte file and the value lives at index 4, not index 0. Reading
/// index 0 yields the attribute mask (typically 6) and would report Secure Boot as
/// enabled on every machine.
pub fn efivar_byte(data: &[u8]) -> (r: Option<u8>)
    ensures
        r == efivar(data@),
{
    if data.len() > 4 {
        Some(data[4])
    } else {
        None
    }
}

/// Secure Boot state out of the `SecureBoot` and `SetupMode` variables.
///
/// Secure Boot off while the platform is in setup mode means "no keys enrolled yet",
/// which is a different thing to tell the user than "turned off in the firmware".
pub fn decode_secure_boot(secure_boot: Option<&[u8]>, setup_mode: Option<&[u8]>) -> (r: SecureBoot)
    ensures
        r == secure_boot_state(opt_bytes(secure_boot), opt_bytes(setup_mode)),
        r == SecureBoot::Enabled <==> (secure_boot matches Some(d) && efivar(d@) == Some(1u8)),
        r == SecureBoot::SetupMode ==> (secure_boot matches Some(d) && efivar(d@) is Some
            && efivar(d@) != Some(1u8)),
{
    let enabled = match secure_boot {
        Some(d) => match efivar_byte(d) {
            Some(b) => b,
            None => return SecureBoot::Unknown,
        },
        None => return SecureBoot::Unknown,
    };
    if enabled == 1 {
        return SecureBoot::Enabled;
    }
    let setup = match setup_mode {
        Some(m) => efivar_byte(m),
        None => None,
    };
    if setup == Some(1u8) {
        return SecureBoot::SetupMode;
    }
    SecureBoot::Disabled
}

/// `NotUefi` on a legacy-BIOS machine, else what the two variables say.
pub fn probe_secure_boot(uefi: bool, secure_boot: Option<&[u8]>, setup_mode: Option<&[u8]>) -> (r:
    SecureBoot)
    ensures
        r == (if uefi {
            secure_boot_state(opt_bytes(secure_boot), opt_bytes(setup_mode))
        } else {
            SecureBoot::NotUefi
        }),
{
    if !uefi {
        return SecureBoot::NotUefi;
    }
    decode_secure_boot(secure_boot, setup_mode)
}

// ---------------------------------------------------------------- microcode

/// The value of the first `key: value` line whose trimmed key is `microcode`.
pub open spec fn microcode_in(ls: Seq<Seq<char>>) -> Option<Seq<char>>
    decreases ls.len(),
{
    if ls.len() == 0 {
        None
    } else {
        match split_once(ls[0], ':') {
            Some((k, v)) => if trim_ws(k) == "microcode"@ {
                Some(trim_ws(v))
            } else {
                microcode_in(ls.drop_first())
            },
            None => microcode_in(ls.drop_first()),
        }
    }
}

pub open spec fn microcode_spec(cpuinfo: Seq<char>) -> Option<Seq<char>> {
    match microcode_in(lines(cpuinfo)) {
        Some(v) => if v.len() == 0 {
            None
        } else {
            Some(v)
        },
        None => None,
    }
}

/// Extracts the first `microcode` line of `/proc/cpuinfo`.
///
/// Absent on non-x86 and inside some VMs, and identical for every core on a sane machine,
/// so only the first occurrence is taken.
pub fn parse_microcode(cpuinfo: &str) -> (r: Option<String>)
    ensures
        match r {
            Some(s) => microcode_spec(cpuinfo@) == Some(s@),
            None => microcode_spec(cpuinfo@) is None,
        },
{
    let c = chars_of(cpuinfo);
    let ls = lines_of(c.as_slice());
    let ghost all = crate::text::views(ls@);
    let key = chars_of("microcode");
    let mut i: usize = 0;
    proof {
        assert(all.subrange(0, all.len() as int) =~= all);
    }
    while i < ls.len()
        invariant
            i <= ls@.len(),
            all == crate::text::views(ls@),
            all == lines(cpuinfo@),
            key@ == "microcode"@,
            microcode_in(all.subrange(i as int, all.len() as int)) == microcode_in(all),
        decreases ls@.len() - i,
    {
        let line = ls[i].as_slice();
        proof {
            let t = all.subrange(i as int, all.len() as int);
            assert(t.drop_first() =~= all.subrange(i + 1, all.len() as int));
            assert(t[0] == line@);
        }
        match split_once_at(line, ':') {
            Some(j) => {
                let n = line.len();
                let k = slice_to_vec(line, 0, j);
                let kt = trimmed(k.as_slice(), &Class::Ws);
                if chars_eq(kt.as_slice(), key.as_slice()) {
                    let v = slice_to_vec(line, j + 1, n);
                    let vt = trimmed(v.as_slice(), &Class::Ws);
                    if vt.len() == 0 {
                        return None;
                    }
                    return Some(string_of(vt.as_slice()));
                }
            },
            None => {},
        }
        i += 1;
    }
    None
}

// ---------------------------------------------------------------- chassis

/// SMBIOS type 3 (System Enclosure) chassis types, DSP0134 section 7.4.1.
pub open spec fn chassis_name(code: u8) -> Option<Seq<char>> {
    if code == 1 { Some("Other"@) }
    else if code == 2 { Some("Unknown"@) }
    else if code == 3 { Some("Desktop"@) }
    else if code == 4 { Some("Low Profile Desktop"@) }
    else if code == 5 { Some("Pizza Box"@) }
    else if code == 6 { Some("Mini Tower"@) }
    else if code == 7 { Some("Tower"@) }
    else if code == 8 { Some("Portable"@) }
    else if code == 9 { Some("Laptop"@) }
    else if code == 10 { Some("Notebook"@) }
    else if code == 11 { Some("Hand Held"@) }
    else if code == 12 { Some("Docking Station"@) }
    else if code == 13 { Some("All In One"@) }
    else if code == 14 { Some("Sub Notebook"@) }
    else if code == 15 { Some("Space-saving"@) }
    else if code == 16 { Some("Lunch Box"@) }
    else if code == 17 { Some("Main Server Chassis"@) }
    else if code == 18 { Some("Expansion Chassis"@) }
    else if code == 19 { Some("SubChassis"@) }
    else if code == 20 { Some("Bus Expansion Chassis"@) }
    else if code == 21 { Some("Peripheral Chassis"@) }
    else if code == 22 { Some("RAID Chassis"@) }
    else if code == 23 { Some("Rack Mount Chassis"@) }
    else if code == 24 { Some("Sealed-case PC"@) }
    else if code == 25 { Some("Multi-system Chassis"@) }
    else if code == 26 { Some("Compact PCI"@) }
    else if code == 27 { Some("Advanced TCA"@) }
    else if code == 28 { Some("Blade"@) }
    else if code == 29 { Some("Blade Enclosure"@) }
    else if code == 30 { Some("Tablet"@) }
    else if code == 31 { Some("Convertible"@) }
    else if code == 32 { Some("Detachable"@) }
    else if code == 33 { Some("IoT Gateway"@) }
    else if code == 34 { Some("Embedded PC"@) }
    else if code == 35 { Some("Mini PC"@) }
    else if code == 36 { Some("Stick PC"@) }
    else { None }
}

/// The chassis names are DSP0134's: each common kind of machine is told by exactly the
/// code the standard gives it, so a name shown always means that code (`Portable` is 8
/// and `Laptop` 9, `Notebook` 10, `Sub Notebook` 14; `Desktop` 3, `Mini Tower` 6,
/// `Tower` 7, `All In One` 13; `Tablet` 30, `Convertible` 31, `Detachable` 32; `Mini
/// PC` 35), and exactly the codes 1 to 36 are named.
pub proof fn lemma_chassis_names_are_dsp0134(code: u8)
    ensures
        chassis_name(code) == Some("Portable"@) <==> code == 8,
        chassis_name(code) == Some("Laptop"@) <==> code == 9,
        chassis_name(code) == Some("Notebook"@) <==> code == 10,
        chassis_name(code) == Some("Sub Notebook"@) <==> code == 14,
        chassis_name(code) == Some("Desktop"@) <==> code == 3,
        chassis_name(code) == Some("Mini Tower"@) <==> code == 6,
        chassis_name(code) == Some("Tower"@) <==> code == 7,
        chassis_name(code) == Some("All In One"@) <==> code == 13,
        chassis_name(code) == Some("Tablet"@) <==> code == 30,
        chassis_name(code) == Some("Convertible"@) <==> code == 31,
        chassis_name(code) == Some("Detachable"@) <==> code == 32,
        chassis_name(code) == Some("Mini PC"@) <==> code == 35,
        chassis_name(code) is Some <==> 1 <= code <= 36,
{
    reveal_strlit("Other");
    reveal_strlit("Unknown");
    reveal_strlit("Desktop");
    reveal_strlit("Low Profile Desktop");
    reveal_strlit("Pizza Box");
    reveal_strlit("Mini Tower");
    reveal_strlit("Tower");
    reveal_strlit("Portable");
    reveal_strlit("Laptop");
    reveal_strlit("Notebook");
    reveal_strlit("Hand Held");
    reveal_strlit("Docking Station");
    reveal_strlit("All In One");
    reveal_strlit("Sub Notebook");
    reveal_strlit("Space-saving");
    reveal_strlit("Lunch Box");
    reveal_strlit("Main Server Chassis");
    reveal_strlit("Expansion Chassis");
    reveal_strlit("SubChassis");
    reveal_strlit("Bus Expansion Chassis");
    reveal_strlit("Peripheral Chassis");
    reveal_strlit("RAID Chassis");
    reveal_strlit("Rack Mount Chassis");
    reveal_strlit("Sealed-case PC");
    reveal_strlit("Multi-system Chassis");
    reveal_strlit("Compact PCI");
    reveal_strlit("Advanced TCA");
    reveal_strlit("Blade");
    reveal_strlit("Blade Enclosure");
    reveal_strlit("Tablet");
    reveal_strlit("Convertible");
    reveal_strlit("Detachable");
    reveal_strlit("IoT Gateway");
    reveal_strlit("Embedded PC");
    reveal_strlit("Mini PC");
    reveal_strlit("Stick PC");
    if chassis_name(code) == Some("Portable"@) {
        assert(chassis_name(code)->0.len() == 8);
        assert(code == 8 || code == 10 || code == 36);
        assert("Portable"@[0] != "Notebook"@[0]);
        assert("Portable"@[0] != "Stick PC"@[0]);
        assert(code == 8);
    }
    if chassis_name(code) == Some("Laptop"@) {
        assert(chassis_name(code)->0.len() == 6);
        assert(code == 9 || code == 30);
        assert("Laptop"@[0] != "Tablet"@[0]);
        assert(code == 9);
    }
    if chassis_name(code) == Some("Notebook"@) {
        assert(chassis_name(code)->0.len() == 8);
        assert(code == 8 || code == 10 || code == 36);
        assert("Notebook"@[0] != "Portable"@[0]);
        assert("Notebook"@[0] != "Stick PC"@[0]);
        assert(code == 10);
    }
    if chassis_name(code) == Some("Sub Notebook"@) {
        assert(chassis_name(code)->0.len() == 12);
        assert(code == 14 || code == 15 || code == 22 || code == 27);
        assert("Sub Notebook"@[1] != "Space-saving"@[1]);
        assert("Sub Notebook"@[0] != "RAID Chassis"@[0]);
        assert("Sub Notebook"@[0] != "Advanced TCA"@[0]);
        assert(code == 14);
    }
    if chassis_name(code) == Some("Desktop"@) {
        assert(chassis_name(code)->0.len() == 7);
        assert(code == 2 || code == 3 || code == 35);
        assert("Desktop"@[0] != "Unknown"@[0]);
        assert("Desktop"@[0] != "Mini PC"@[0]);
        assert(code == 3);
    }
    if chassis_name(code) == Some("Mini Tower"@) {
        assert(chassis_name(code)->0.len() == 10);
        assert(code == 6 || code == 13 || code == 19 || code == 32);
        assert("Mini Tower"@[0] != "All In One"@[0]);
        assert("Mini Tower"@[0] != "SubChassis"@[0]);
        assert("Mini Tower"@[0] != "Detachable"@[0]);
        assert(code == 6);
    }
    if chassis_name(code) == Some("Tower"@) {
        assert(chassis_name(code)->0.len() == 5);
        assert(code == 1 || code == 7 || code == 28);
        assert("Tower"@[0] != "Other"@[0]);
        assert("Tower"@[0] != "Blade"@[0]);
        assert(code == 7);
    }
    if chassis_name(code) == Some("All In One"@) {
        assert(chassis_name(code)->0.len() == 10);
        assert(code == 6 || code == 13 || code == 19 || code == 32);
        assert("All In One"@[0] != "Mini Tower"@[0]);
        assert("All In One"@[0] != "SubChassis"@[0]);
        assert("All In One"@[0] != "Detachable"@[0]);
        assert(code == 13);
    }
    if chassis_name(code) == Some("Tablet"@) {
        assert(chassis_name(code)->0.len() == 6);
        assert(code == 9 || code == 30);
        assert("Tablet"@[0] != "Laptop"@[0]);
        assert(code == 30);
    }
    if chassis_name(code) == Some("Convertible"@) {
        assert(chassis_name(code)->0.len() == 11);
        assert(code == 26 || code == 31 || code == 33 || code == 34);
        assert("Convertible"@[2] != "Compact PCI"@[2]);
        assert("Convertible"@[0] != "IoT Gateway"@[0]);
        assert("Convertible"@[0] != "Embedded PC"@[0]);
        assert(code == 31);
    }
    if chassis_name(code) == Some("Detachable"@) {
        assert(chassis_name(code)->0.len() == 10);
        assert(code == 6 || code == 13 || code == 19 || code == 32);
        assert("Detachable"@[0] != "Mini Tower"@[0]);
        assert("Detachable"@[0] != "All In One"@[0]);
        assert("Detachable"@[0] != "SubChassis"@[0]);
        assert(code == 32);
    }
    if chassis_name(code) == Some("Mini PC"@) {
        assert(chassis_name(code)->0.len() == 7);
        assert(code == 2 || code == 3 || code == 35);
        assert("Mini PC"@[0] != "Unknown"@[0]);
        assert("Mini PC"@[0] != "Desktop"@[0]);
        assert(code == 35);
    }
}

pub open spec fn static_opt(o: Option<&'static str>) -> Option<Seq<char>> {
    match o {
        Some(s) => Some(s@),
        None => None,
    }
}

/// The name of an SMBIOS chassis type; codes outside 1..=36 stay unnamed.
pub fn chassis_type_name(code: u8) -> (r: Option<&'static str>)
    ensures
        static_opt(r) == chassis_name(code),
        r is Some <==> 1 <= code <= 36,
{
    let name = match code {
        1 => "Other",
        2 => "Unknown",
        3 => "Desktop",
        4 => "Low Profile Desktop",
        5 => "Pizza Box",
        6 => "Mini Tower",
        7 => "Tower",
        8 => "Portable",
        9 => "Laptop",
        10 => "Notebook",
        11 => "Hand Held",
        12 => "Docking Station",
        13 => "All In One",
        14 => "Sub Notebook",
        15 => "Space-saving",
        16 => "Lunch Box",
        17 => "Main Server Chassis",
        18 => "Expansion Chassis",
        19 => "SubChassis",
        20 => "Bus Expansion Chassis",
        21 => "Peripheral Chassis",
        22 => "RAID Chassis",
        23 => "Rack Mount Chassis",
        24 => "Sealed-case PC",
        25 => "Multi-system Chassis",
        26 => "Compact PCI",
        27 => "Advanced TCA",
        28 => "Blade",
        29 => "Blade Enclosure",
        30 => "Tablet",
        31 => "Convertible",
        32 => "Detachable",
        33 => "IoT Gateway",
        34 => "Embedded PC",
        35 => "Mini PC",
        36 => "Stick PC",
        _ => return None,
    };
    Some(name)
}

/// The chassis-type attribute as a code, lock bit cleared.
pub fn chassis_type_of(a: &Attr) -> (r: Option<u8>)
    ensures
        r == chassis_code(*a),
{
    match read_u32(a) {
        Some(v) => if v <= 0xff {
            let b = v as u8;
            Some(b & 0x7f)
        } else {
            None
        },
        None => None,
    }
}

// ---------------------------------------------------------------- assembly

/// A descriptive DMI string, placeholders dropped.
pub fn dmi(a: Attr) -> (v: Value)
    ensures
        v@ == dmi_value(a),
{
    Value::from_dmi(Value::from_attr(a))
}

pub open spec fn opt_string(o: Option<String>) -> Option<Seq<char>> {
    match o {
        Some(s) => Some(s@),
        None => None,
    }
}

/// The firmware facts out of what was read.
pub fn probe(src: FirmwareSources) -> (f: Firmware)
    ensures
        f.bios_vendor@ == dmi_value(src.bios_vendor),
        f.bios_version@ == dmi_value(src.bios_version),
        f.bios_date@ == dmi_value(src.bios_date),
        f.bios_release@ == dmi_value(src.bios_release),
        f.board_vendor@ == dmi_value(src.board_vendor),
        f.board_name@ == dmi_value(src.board_name),
        f.board_version@ == dmi_value(src.board_version),
        f.board_serial@ == value_of_attr(src.board_serial),
        f.chassis_vendor@ == dmi_value(src.chassis_vendor),
        f.chassis_version@ == dmi_value(src.chassis_version),
        f.chassis_serial@ == value_of_attr(src.chassis_serial),
        f.chassis_type == chassis_code(src.chassis_type),
        static_opt(f.chassis_type_name) == (match chassis_code(src.chassis_type) {
            Some(c) => chassis_name(c),
            None => None,
        }),
        f.product_serial@ == value_of_attr(src.product_serial),
        f.product_uuid@ == value_of_attr(src.product_uuid),
        f.firmware_type == (if src.uefi {
            FirmwareType::Uefi
        } else {
            FirmwareType::LegacyBios
        }),
        f.efi_bits == efi_bits_of(src.fw_platform_size),
        f.secure_boot == (if src.uefi {
            secure_boot_state(opt_vec_bytes(src.secure_boot), opt_vec_bytes(src.setup_mode))
        } else {
            SecureBoot::NotUefi
        }),
        f.tpm == src.tpm,
        f.cpu_microcode@ == (match src.cpuinfo {
            Some(c) => match microcode_spec(c@) {
                Some(m) => if trim_ws(m).len() == 0 {
                    ValueView::Unavailable
                } else {
                    ValueView::Known(m)
                },
                None => ValueView::Unavailable,
            },
            None => ValueView::Unavailable,
        }),
{
    let chassis_type = chassis_type_of(&src.chassis_type);
    let chassis_type_name = match chassis_type {
        Some(c) => chassis_type_name(c),
        None => None,
    };
    let efi_bits = match read_u32(&src.fw_platform_size) {
        Some(b) => if b <= 0xff {
            Some(b as u8)
        } else {
            None
        },
        None => None,
    };
    let secure_boot = probe_secure_boot(
        src.uefi,
        match &src.secure_boot {
            Some(d) => Some(d.as_slice()),
            None => None,
        },
        match &src.setup_mode {
            Some(d) => Some(d.as_slice()),
            None => None,
        },
    );
    let microcode = match &src.cpuinfo {
        Some(c) => parse_microcode(c.as_str()),
        None => None,
    };
    let cpu_microcode = Value::from_option(microcode);
    Firmware {
        bios_vendor: dmi(src.bios_vendor),
        bios_version: dmi(src.bios_version),
        bios_date: dmi(src.bios_date),
        bios_release: dmi(src.bios_release),
        board_vendor: dmi(src.board_vendor),
        board_name: dmi(src.board_name),
        board_version: dmi(src.board_version),
        board_serial: Value::from_attr(src.board_serial),
        chassis_vendor: dmi(src.chassis_vendor),
        chassis_version: dmi(src.chassis_version),
        chassis_serial: Value::from_attr(src.chassis_serial),
        chassis_type,
        chassis_type_name,
        product_serial: Value::from_attr(src.product_serial),
        product_uuid: Value::from_attr(src.product_uuid),
        firmware_type: if src.uefi {
            FirmwareType::Uefi
        } else {
            FirmwareType::LegacyBios
        },
        efi_bits,
        secure_boot,
        tpm: src.tpm,
        cpu_microcode,
    }
}

} // verus!
