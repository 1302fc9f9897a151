//! The words the hardware page shows for firmware facts. The words that depend on the
//! user's language are handed in.
use vstd::prelude::*;
use crate::num::{dec_chars, dec_str};
use crate::text::{chars_of, string_of};
use super::firmware::static_opt;
use super::{opt_view, spaced, join_spaced, Firmware, FirmwareType, SecureBoot, Value, ValueView};

verus! {

/// The words the labels use, in the user's language.
pub struct Words {
    pub unknown: String,
    pub requires_root: String,
    pub legacy: String,
    pub enabled: String,
    pub disabled: String,
    pub setup_mode: String,
    pub not_applicable: String,
    pub present: String,
    pub absent: String,
}

fn append(v: &mut Vec<char>, w: &Vec<char>)
    ensures
        final(v)@ == old(v)@ + w@,
{
    let ghost start = v@;
    let mut k: usize = 0;
    while k < w.len()
        invariant
            k <= w@.len(),
            v@ == start + w@.subrange(0, k as int),
        decreases w@.len() - k,
    {
        proof {
            assert(w@.subrange(0, k + 1) =~= w@.subrange(0, k as int).push(w@[k as int]));
        }
        v.push(w[k]);
        k += 1;
    }
    proof {
        assert(w@.subrange(0, w@.len() as int) =~= w@);
    }
}

/// A value as the page shows it: its text, "requires root", or "unknown".
pub fn value_label(value: &Value, words: &Words) -> (s: String)
    ensures
        s@ == (match value@ {
            ValueView::Known(t) => t,
            ValueView::RequiresRoot => words.requires_root@,
            ValueView::Unavailable => words.unknown@,
        }),
{
    match value {
        Value::Known(t) => t.clone(),
        Value::RequiresRoot => words.requires_root.clone(),
        Value::Unavailable => words.unknown.clone(),
    }
}

/// The board: vendor and name, whichever of them is known.
pub fn board_label(fw: &Firmware, words: &Words) -> (s: String)
    ensures
        s@ == (match (fw.board_vendor@, fw.board_name@) {
            (ValueView::Known(v), ValueView::Known(n)) => spaced(v, n),
            (ValueView::Known(v), _) => v,
            (_, ValueView::Known(n)) => n,
            _ => words.unknown@,
        }),
{
    match (fw.board_vendor.as_str(), fw.board_name.as_str()) {
        (Some(vendor), Some(name)) => join_spaced(vendor, name),
        (None, Some(name)) => name.to_owned(),
        (Some(vendor), None) => vendor.to_owned(),
        (None, None) => words.unknown.clone(),
    }
}

/// The chassis: its SMBIOS name and code, or the bare code.
pub fn chassis_label(fw: &Firmware, words: &Words) -> (s: String)
    ensures
        s@ == (match (static_opt(fw.chassis_type_name), fw.chassis_type) {
            (Some(name), Some(code)) => name + " ("@ + dec_str(code as nat) + ")"@,
            (None, Some(code)) => dec_str(code as nat),
            _ => words.unknown@,
        }),
{
    match (fw.chassis_type_name, fw.chassis_type) {
        (Some(name), Some(code)) => {
            let mut v = chars_of(name);
            append(&mut v, &chars_of(" ("));
            append(&mut v, &dec_chars(code as u64));
            append(&mut v, &chars_of(")"));
            proof {
                reveal_strlit(" (");
                reveal_strlit(")");
            }
            string_of(v.as_slice())
        },
        (None, Some(code)) => string_of(dec_chars(code as u64).as_slice()),
        _ => words.unknown.clone(),
    }
}

/// UEFI with its word size, legacy BIOS, or unknown.
pub fn firmware_type_label(fw: &Firmware, words: &Words) -> (s: String)
    ensures
        s@ == (match (fw.firmware_type, fw.efi_bits) {
            (FirmwareType::Uefi, Some(bits)) => "UEFI ("@ + dec_str(bits as nat) + "-bit)"@,
            (FirmwareType::Uefi, None) => "UEFI"@,
            (FirmwareType::LegacyBios, _) => words.legacy@,
            (FirmwareType::Unknown, _) => words.unknown@,
        }),
{
    match (fw.firmware_type, fw.efi_bits) {
        (FirmwareType::Uefi, Some(bits)) => {
            let mut v = chars_of("UEFI (");
            append(&mut v, &dec_chars(bits as u64));
            append(&mut v, &chars_of("-bit)"));
            proof {
                reveal_strlit("UEFI (");
                reveal_strlit("-bit)");
            }
            string_of(v.as_slice())
        },
        (FirmwareType::Uefi, None) => "UEFI".to_owned(),
        (FirmwareType::LegacyBios, _) => words.legacy.clone(),
        (FirmwareType::Unknown, _) => words.unknown.clone(),
    }
}

pub fn secure_boot_label(state: SecureBoot, words: &Words) -> (s: String)
    ensures
        s@ == (match state {
            SecureBoot::Enabled => words.enabled@,
            SecureBoot::Disabled => words.disabled@,
            SecureBoot::SetupMode => words.setup_mode@,
            SecureBoot::NotUefi => words.not_applicable@,
            SecureBoot::Unknown => words.unknown@,
        }),
{
    match state {
        SecureBoot::Enabled => words.enabled.clone(),
        SecureBoot::Disabled => words.disabled.clone(),
        SecureBoot::SetupMode => words.setup_mode.clone(),
        SecureBoot::NotUefi => words.not_applicable.clone(),
        SecureBoot::Unknown => words.unknown.clone(),
    }
}

/// "present" with the TPM's major version, or "absent".
pub fn tpm_label(fw: &Firmware, words: &Words) -> (s: String)
    ensures
        s@ == (match fw.tpm {
            Some(t) => match opt_view(t.version_major) {
                Some(v) => spaced(words.present@, v),
                None => words.present@,
            },
            None => words.absent@,
        }),
{
    match &fw.tpm {
        Some(tpm) => match &tpm.version_major {
            Some(version) => join_spaced(words.present.as_str(), version.as_str()),
            None => words.present.clone(),
        },
        None => words.absent.clone(),
    }
}

} // verus!
