//! Graphics adapters and attached displays.
//!
//! GPUs are a filtered view of the PCI list that was already resolved, so no device is
//! scanned or named twice. Displays come from `/sys/class/drm/<card>-<connector>/`,
//! including the raw EDID blob, which is parsed here by hand.
use vstd::prelude::*;
use crate::num::{dec_chars, dec_str};
use crate::text::{
    ascii_upper, chars_eq, chars_of, has_prefix, lines, lines_of, slice_to_vec, starts_with,
    string_of, trim, trim_ws, trimmed, views, Class,
};
use super::hwids::{string_opt, str_opt, HwIds, IdsView};
use super::util::{attr_text, attr_trim, Attr};
use super::{Display, Gpu, PciDevice};

verus! {

/// PCI class 0x03: display controller.
pub const CLASS_DISPLAY: u8 = 0x03;

/// Size of an EDID 1.x base block.
pub const EDID_BASE_LEN: usize = 128;

// ---------------------------------------------------------------- gpus

pub open spec fn display_positions(pci: Seq<PciDevice>) -> Seq<int>
    decreases pci.len(),
{
    if pci.len() == 0 {
        seq![]
    } else {
        let p = display_positions(pci.drop_last());
        if pci.last().raw.class_base == CLASS_DISPLAY {
            p.push(pci.len() - 1)
        } else {
            p
        }
    }
}

proof fn lemma_display_positions(pci: Seq<PciDevice>)
    ensures
        forall|j: int|
            0 <= j < display_positions(pci).len() ==> 0 <= #[trigger] display_positions(pci)[j]
                < pci.len(),
    decreases pci.len(),
{
    if pci.len() > 0 {
        lemma_display_positions(pci.drop_last());
        let p = display_positions(pci.drop_last());
        assert forall|j: int| 0 <= j < display_positions(pci).len() implies 0 <= #[trigger] display_positions(pci)[j]
            < pci.len() by {
            if j < p.len() {
                assert(display_positions(pci)[j] == p[j]);
            }
        }
    }
}

/// The bound drivers of the display controllers, in list order: whose module versions
/// the caller looks up.
pub fn gpu_drivers(pci: &Vec<PciDevice>) -> (out: Vec<Option<String>>)
    ensures
        out@.len() == display_positions(pci@).len(),
        forall|j: int| 0 <= j < out@.len() ==> #[trigger] out@[j] == pci@[display_positions(pci@)[j]].raw.driver,
{
    let mut out: Vec<Option<String>> = Vec::new();
    let mut i: usize = 0;
    while i < pci.len()
        invariant
            i <= pci@.len(),
            out@.len() == display_positions(pci@.subrange(0, i as int)).len(),
            forall|j: int| 0 <= j < out@.len() ==> #[trigger] out@[j] == pci@[display_positions(pci@.subrange(0, i as int))[j]].raw.driver,
            forall|j: int| 0 <= j < display_positions(pci@.subrange(0, i as int)).len() ==> #[trigger] display_positions(pci@.subrange(0, i as int))[j] < i,
        decreases pci@.len() - i,
    {
        proof {
            assert(pci@.subrange(0, i + 1).drop_last() =~= pci@.subrange(0, i as int));
            assert(pci@.subrange(0, i + 1).last() == pci@[i as int]);
            lemma_display_positions(pci@.subrange(0, i as int));
        }
        if pci[i].raw.class_base == CLASS_DISPLAY {
            out.push(pci[i].raw.driver.clone());
        }
        i += 1;
    }
    proof {
        assert(pci@.subrange(0, pci@.len() as int) =~= pci@);
    }
    out
}

/// The module directory names to try for a driver's version, in order: the driver
/// name, then, when it has dashes, the name with underscores, which is how the module
/// directory spells it.
pub open spec fn module_names(driver: Seq<char>) -> Seq<Seq<char>> {
    let alt = driver.map_values(|c: char| if c == '-' {
        '_'
    } else {
        c
    });
    if alt == driver {
        seq![driver]
    } else {
        seq![driver, alt]
    }
}

pub fn module_dirs(driver: &str) -> (out: Vec<String>)
    ensures
        out@.map_values(|s: String| s@) == module_names(driver@),
{
    let c = chars_of(driver);
    let mut alt: Vec<char> = Vec::new();
    let mut changed = false;
    let mut i: usize = 0;
    while i < c.len()
        invariant
            i <= c@.len(),
            alt@ == c@.subrange(0, i as int).map_values(|c: char| if c == '-' {
                '_'
            } else {
                c
            }),
            changed <==> exists|j: int| 0 <= j < i && c@[j] == '-',
        decreases c@.len() - i,
    {
        let x = c[i];
        let y = if x == '-' {
            changed = true;
            '_'
        } else {
            x
        };
        proof {
            assert(c@.subrange(0, i + 1).map_values(|c: char| if c == '-' {
                '_'
            } else {
                c
            }) =~= c@.subrange(0, i as int).map_values(|c: char| if c == '-' {
                '_'
            } else {
                c
            }).push(y));
        }
        alt.push(y);
        i += 1;
    }
    proof {
        assert(c@.subrange(0, c@.len() as int) =~= c@);
        if changed {
            let j = choose|j: int| 0 <= j < c@.len() && c@[j] == '-';
            assert(alt@[j] == '_');
            assert(alt@ != c@);
        } else {
            assert(alt@ =~= c@);
        }
    }
    let mut out: Vec<String> = Vec::new();
    out.push(driver.to_owned());
    if changed {
        out.push(string_of(alt.as_slice()));
    }
    proof {
        assert(out@.map_values(|s: String| s@) =~= module_names(driver@));
    }
    out
}

/// The first readable, non-empty version among the module directories tried.
/// Out-of-tree modules publish one (`nvidia` reports e.g. `610.43.03`); in-tree DRM
/// drivers such as `i915` and `amdgpu` have no such attribute, so `None` is ordinary.
pub open spec fn first_text(reads: Seq<Attr>) -> Option<Seq<char>>
    decreases reads.len(),
{
    if reads.len() == 0 {
        None
    } else {
        match attr_text(reads[0]) {
            Some(t) => Some(t),
            None => first_text(reads.drop_first()),
        }
    }
}

pub fn first_version(reads: &Vec<Attr>) -> (r: Option<String>)
    ensures
        string_opt(r) == first_text(reads@),
{
    let mut i: usize = 0;
    proof {
        assert(reads@.subrange(0, reads@.len() as int) =~= reads@);
    }
    while i < reads.len()
        invariant
            i <= reads@.len(),
            first_text(reads@.subrange(i as int, reads@.len() as int)) == first_text(reads@),
        decreases reads@.len() - i,
    {
        proof {
            let t = reads@.subrange(i as int, reads@.len() as int);
            assert(t.drop_first() =~= reads@.subrange(i + 1, reads@.len() as int));
            assert(t[0] == reads@[i as int]);
        }
        match attr_trim(&reads[i]) {
            Some(v) => {
                return Some(v);
            },
            None => {},
        }
        i += 1;
    }
    None
}

/// `g` is the GPU entry of display controller `d`.
pub open spec fn gpu_ok(d: PciDevice, version: Option<String>, g: Gpu) -> bool {
    &&& g.slot@ == d.raw.slot@
    &&& g.vendor_name == d.vendor_name
    &&& g.device_name == d.device_name
    &&& g.subsystem_name == d.subsystem_name
    &&& g.id_string@ == super::id_pair(d.raw.vendor_id, d.raw.device_id)
    &&& g.revision == d.raw.revision
    &&& g.driver == d.raw.driver
    &&& g.driver_version == version
    &&& g.drm_nodes@.map_values(|s: String| s@) == d.raw.drm_nodes@.map_values(|s: String| s@)
}

fn clone_opt(o: &Option<String>) -> (r: Option<String>)
    ensures
        r == *o,
{
    match o {
        Some(s) => Some(s.clone()),
        None => None,
    }
}

fn clone_all(v: &Vec<String>) -> (out: Vec<String>)
    ensures
        out@.map_values(|s: String| s@) == v@.map_values(|s: String| s@),
{
    let mut out: Vec<String> = Vec::new();
    let mut i: usize = 0;
    while i < v.len()
        invariant
            i <= v@.len(),
            out@.map_values(|s: String| s@) == v@.subrange(0, i as int).map_values(|s: String| s@),
        decreases v@.len() - i,
    {
        let s = v[i].clone();
        proof {
            assert(out@.push(s).map_values(|s: String| s@) =~= out@.map_values(|s: String| s@).push(s@));
            assert(v@.subrange(0, i + 1).map_values(|s: String| s@) =~= v@.subrange(0, i as int).map_values(|s: String| s@).push(v@[i as int]@));
        }
        out.push(s);
        i += 1;
    }
    proof {
        assert(v@.subrange(0, v@.len() as int) =~= v@);
    }
    out
}

pub open spec fn version_at(versions: Seq<Option<String>>, j: int) -> Option<String> {
    if j < versions.len() {
        versions[j]
    } else {
        None
    }
}

/// The display controllers (PCI class 0x03) of the device list, in order; the k-th
/// gets `versions[k]` as its driver version (none where the list is shorter).
pub fn gpus(pci: &Vec<PciDevice>, versions: &Vec<Option<String>>) -> (out: Vec<Gpu>)
    ensures
        out@.len() == display_positions(pci@).len(),
        forall|j: int| 0 <= j < out@.len() ==> #[trigger] gpu_ok(
            pci@[display_positions(pci@)[j]],
            version_at(versions@, j),
            out@[j],
        ),
{
    let mut out: Vec<Gpu> = Vec::new();
    let mut i: usize = 0;
    while i < pci.len()
        invariant
            i <= pci@.len(),
            out@.len() == display_positions(pci@.subrange(0, i as int)).len(),
            forall|j: int| 0 <= j < out@.len() ==> #[trigger] gpu_ok(
                pci@[display_positions(pci@.subrange(0, i as int))[j]],
                version_at(versions@, j),
                out@[j],
            ),
            forall|j: int| 0 <= j < display_positions(pci@.subrange(0, i as int)).len() ==> #[trigger] display_positions(pci@.subrange(0, i as int))[j] < i,
        decreases pci@.len() - i,
    {
        proof {
            assert(pci@.subrange(0, i + 1).drop_last() =~= pci@.subrange(0, i as int));
            assert(pci@.subrange(0, i + 1).last() == pci@[i as int]);
            lemma_display_positions(pci@.subrange(0, i as int));
        }
        let d = &pci[i];
        if d.raw.class_base == CLASS_DISPLAY {
            let k = out.len();
            let version = if k < versions.len() {
                clone_opt(&versions[k])
            } else {
                None
            };
            let g = Gpu {
                slot: d.raw.slot.clone(),
                vendor_name: clone_opt(&d.vendor_name),
                device_name: clone_opt(&d.device_name),
                subsystem_name: clone_opt(&d.subsystem_name),
                id_string: d.id_string(),
                revision: d.raw.revision,
                driver: clone_opt(&d.raw.driver),
                driver_version: version,
                drm_nodes: clone_all(&d.raw.drm_nodes),
            };
            out.push(g);
        }
        i += 1;
    }
    proof {
        assert(pci@.subrange(0, pci@.len() as int) =~= pci@);
    }
    out
}

// ---------------------------------------------------------------- connectors

/// `card1-DP-1` names connector `DP-1`; `card1`, `renderD128` and `version` name none.
/// Everything between `card` and the first dash must be the card index.
pub open spec fn connector_of(entry: Seq<char>) -> Option<Seq<char>> {
    if starts_with(entry, "card"@) {
        let rest = entry.subrange(4, entry.len() as int);
        let dash = crate::text::first_in(rest, Class::Is('-')) as int;
        if dash < rest.len() && dash > 0 && crate::num::all_digits(rest.subrange(0, dash), 10)
            && dash + 1 < rest.len() {
            Some(rest.subrange(dash + 1, rest.len() as int))
        } else {
            None
        }
    } else {
        None
    }
}

pub fn connector_name(entry: &str) -> (r: Option<String>)
    ensures
        string_opt(r) == connector_of(entry@),
{
    let c = chars_of(entry);
    let card = chars_of("card");
    proof {
        reveal_strlit("card");
    }
    if !has_prefix(c.as_slice(), card.as_slice()) {
        return None;
    }
    let n = c.len();
    let rest = slice_to_vec(c.as_slice(), 4, n);
    let dash = crate::text::find_in(rest.as_slice(), 0, &Class::Is('-'));
    proof {
        assert(rest@.subrange(0, rest@.len() as int) =~= rest@);
    }
    if dash >= rest.len() || dash == 0 {
        return None;
    }
    let mut k: usize = 0;
    while k < dash
        invariant
            k <= dash < rest@.len(),
            c@ == entry@,
            starts_with(entry@, "card"@),
            "card"@.len() == 4,
            rest@ == c@.subrange(4, c@.len() as int),
            dash as int == crate::text::first_in(rest@, Class::Is('-')) as int,
            dash > 0,
            forall|j: int| 0 <= j < k ==> crate::num::is_dec_digit(#[trigger] rest@[j]),
        decreases dash - k,
    {
        if !(rest[k] >= '0' && rest[k] <= '9') {
            proof {
                let h = rest@.subrange(0, dash as int);
                assert(!crate::num::is_radix_digit(h[k as int], 10));
            }
            return None;
        }
        k += 1;
    }
    proof {
        let h = rest@.subrange(0, dash as int);
        assert forall|j: int| 0 <= j < h.len() implies crate::num::is_radix_digit(#[trigger] h[j], 10) by {
            assert(h[j] == rest@[j]);
        }
    }
    let rn = rest.len();
    if rn - dash < 2 {
        return None;
    }
    let name = slice_to_vec(rest.as_slice(), dash + 1, rn);
    Some(string_of(name.as_slice()))
}

/// The trimmed, non-empty lines.
pub open spec fn mode_lines(ls: Seq<Seq<char>>) -> Seq<Seq<char>>
    decreases ls.len(),
{
    if ls.len() == 0 {
        seq![]
    } else {
        let p = mode_lines(ls.drop_last());
        let t = trim_ws(ls.last());
        if t.len() == 0 {
            p
        } else {
            p.push(t)
        }
    }
}

/// What the `modes` attribute says: the first line is the preferred mode, the others
/// are only counted.
pub open spec fn modes_of(a: Attr) -> (Option<Seq<char>>, nat) {
    match attr_text(a) {
        Some(t) => {
            let ms = mode_lines(lines(t));
            if ms.len() > 0 {
                (Some(ms[0]), (ms.len() - 1) as nat)
            } else {
                (None, 0)
            }
        },
        None => (None, 0),
    }
}

pub fn modes(a: &Attr) -> (r: (Option<String>, usize))
    ensures
        (string_opt(r.0), r.1 as nat) == modes_of(*a),
{
    let text = match attr_trim(a) {
        Some(t) => t,
        None => return (None, 0),
    };
    let c = chars_of(text.as_str());
    let ls = lines_of(c.as_slice());
    let ghost all = views(ls@);
    let mut ms: Vec<Vec<char>> = Vec::new();
    let mut i: usize = 0;
    while i < ls.len()
        invariant
            i <= ls@.len(),
            all == views(ls@),
            views(ms@) == mode_lines(all.subrange(0, i as int)),
        decreases ls@.len() - i,
    {
        proof {
            assert(all.subrange(0, i + 1).drop_last() =~= all.subrange(0, i as int));
            assert(all.subrange(0, i + 1).last() == ls@[i as int]@);
        }
        let t = trimmed(ls[i].as_slice(), &Class::Ws);
        if t.len() > 0 {
            proof {
                crate::text::lemma_views_push(ms@, t);
            }
            ms.push(t);
        }
        i += 1;
    }
    proof {
        assert(all.subrange(0, all.len() as int) =~= all);
    }
    if ms.len() > 0 {
        (Some(string_of(ms[0].as_slice())), ms.len() - 1)
    } else {
        (None, 0)
    }
}

// ---------------------------------------------------------------- edid

/// The fields taken from an EDID 1.x base block. Extension blocks (CTA-861 and friends)
/// are ignored: they carry audio and HDMI capabilities that are not displayed.
#[derive(Debug, Clone, PartialEq, Eq)]
pub struct Edid {
    /// Three-letter PNP manufacturer code, e.g. `DEL`.
    pub manufacturer: Option<String>,
    pub model_name: Option<String>,
    pub serial_string: Option<String>,
    pub serial_number: Option<u32>,
    pub year: Option<u32>,
    pub physical_mm: Option<(u32, u32)>,
}

pub struct EdidView {
    pub manufacturer: Option<Seq<char>>,
    pub model_name: Option<Seq<char>>,
    pub serial_string: Option<Seq<char>>,
    pub serial_number: Option<u32>,
    pub year: Option<u32>,
    pub physical_mm: Option<(u32, u32)>,
}

impl View for Edid {
    type V = EdidView;

    open spec fn view(&self) -> EdidView {
        EdidView {
            manufacturer: string_opt(self.manufacturer),
            model_name: string_opt(self.model_name),
            serial_string: string_opt(self.serial_string),
            serial_number: self.serial_number,
            year: self.year,
            physical_mm: self.physical_mm,
        }
    }
}

/// The letter a 5-bit field encodes, `A` == 1.
pub open spec fn letter(raw: u16, shift: u16) -> u16 {
    (raw >> shift) & 0x1f
}

pub open spec fn letter_char(l: u16) -> char {
    ((65 + l - 1) as u8) as char
}

/// The packed manufacturer id: three 5-bit letters, big-endian, each in 1..=26.
pub open spec fn manufacturer_of(raw: u16) -> Option<Seq<char>> {
    let (a, b, c) = (letter(raw, 10), letter(raw, 5), letter(raw, 0));
    if 1 <= a <= 26 && 1 <= b <= 26 && 1 <= c <= 26 {
        Some(seq![letter_char(a), letter_char(b), letter_char(c)])
    } else {
        None
    }
}

pub fn manufacturer_code(raw: u16) -> (r: Option<String>)
    ensures
        string_opt(r) == manufacturer_of(raw),
{
    let a = (raw >> 10) & 0x1f;
    let b = (raw >> 5) & 0x1f;
    let c = raw & 0x1f;
    proof {
        assert((raw >> 0u16) == raw) by (bit_vector);
    }
    if !(1 <= a && a <= 26 && 1 <= b && b <= 26 && 1 <= c && c <= 26) {
        return None;
    }
    let mut v: Vec<char> = Vec::new();
    v.push(((65 + a - 1) as u8) as char);
    v.push(((65 + b - 1) as u8) as char);
    v.push(((65 + c - 1) as u8) as char);
    proof {
        assert(v@ =~= seq![letter_char(a), letter_char(b), letter_char(c)]);
    }
    Some(string_of(v.as_slice()))
}

/// A byte of a text descriptor as a character: printable ASCII as itself, anything else
/// (latin-1, stray NULs, found in blobs in the wild) as a space, to be trimmed away.
pub open spec fn text_char(b: u8) -> char {
    if 0x20 <= b < 0x7f {
        b as char
    } else {
        ' '
    }
}

/// Index of the first `0x0A` in `p`, or `p.len()`.
pub open spec fn newline_at(p: Seq<u8>) -> int
    decreases p.len(),
{
    if p.len() == 0 {
        0
    } else if p[0] == 0x0a {
        0
    } else {
        1 + newline_at(p.drop_first())
    }
}

/// The payload of a text descriptor: 13 bytes at offset 5, ended by `0x0A`, padded
/// with spaces.
pub open spec fn descriptor_text_of(d: Seq<u8>) -> Option<Seq<char>> {
    if d.len() < 18 {
        None
    } else {
        let payload = d.subrange(5, 18);
        let end = newline_at(payload);
        let text = trim_ws(payload.subrange(0, end).map_values(|b: u8| text_char(b)));
        if text.len() == 0 {
            None
        } else {
            Some(text)
        }
    }
}

proof fn lemma_newline_at(p: Seq<u8>)
    ensures
        0 <= newline_at(p) <= p.len(),
        newline_at(p) < p.len() ==> p[newline_at(p)] == 0x0a,
        forall|j: int| 0 <= j < newline_at(p) ==> p[j] != 0x0a,
    decreases p.len(),
{
    if p.len() > 0 && p[0] != 0x0a {
        lemma_newline_at(p.drop_first());
        assert forall|j: int| 0 <= j < newline_at(p) implies p[j] != 0x0a by {
            if j > 0 {
                assert(p[j] == p.drop_first()[j - 1]);
            }
        }
    }
}

proof fn lemma_newline_at_is(p: Seq<u8>, k: int)
    requires
        0 <= k <= p.len(),
        k < p.len() ==> p[k] == 0x0a,
        forall|j: int| 0 <= j < k ==> p[j] != 0x0a,
    ensures
        newline_at(p) == k,
    decreases p.len(),
{
    if p.len() > 0 && k > 0 {
        assert forall|j: int| 0 <= j < k - 1 implies p.drop_first()[j] != 0x0a by {
            assert(p.drop_first()[j] == p[j + 1]);
        }
        if k < p.len() {
            assert(p.drop_first()[k - 1] == p[k]);
        }
        lemma_newline_at_is(p.drop_first(), k - 1);
    }
}

fn text_char_exec(b: u8) -> (c: char)
    ensures
        c == text_char(b),
{
    if 0x20 <= b && b < 0x7f {
        b as char
    } else {
        ' '
    }
}

pub fn descriptor_text(descriptor: &[u8]) -> (r: Option<String>)
    ensures
        string_opt(r) == descriptor_text_of(descriptor@),
{
    if descriptor.len() < 18 {
        return None;
    }
    let ghost payload = descriptor@.subrange(5, 18);
    let mut end: usize = 5;
    while end < 18 && descriptor[end] != 0x0a
        invariant
            5 <= end <= 18,
            18 <= descriptor@.len(),
            forall|j: int| 5 <= j < end ==> descriptor@[j] != 0x0a,
        decreases 18 - end,
    {
        end += 1;
    }
    proof {
        assert forall|j: int| 0 <= j < end - 5 implies payload[j] != 0x0a by {
            assert(payload[j] == descriptor@[j + 5]);
        }
        if end < 18 {
            assert(payload[end - 5] == descriptor@[end as int]);
        }
        lemma_newline_at_is(payload, end - 5);
    }
    let mut text: Vec<char> = Vec::new();
    let mut i: usize = 5;
    while i < end
        invariant
            5 <= i <= end <= 18,
            18 <= descriptor@.len(),
            payload == descriptor@.subrange(5, 18),
            text@ == payload.subrange(0, i - 5).map_values(|b: u8| text_char(b)),
        decreases end - i,
    {
        let ch = text_char_exec(descriptor[i]);
        proof {
            assert(payload.subrange(0, i - 5 + 1).map_values(|b: u8| text_char(b)) =~= payload.subrange(0, i - 5).map_values(|b: u8| text_char(b)).push(ch));
        }
        text.push(ch);
        i += 1;
    }
    let t = trimmed(text.as_slice(), &Class::Ws);
    if t.len() == 0 {
        None
    } else {
        Some(string_of(t.as_slice()))
    }
}

/// Sum of the bytes, modulo 256.
pub open spec fn byte_sum(b: Seq<u8>) -> nat
    decreases b.len(),
{
    if b.len() == 0 {
        0
    } else {
        ((byte_sum(b.drop_last()) + b.last()) % 256) as nat
    }
}

/// The 8-byte EDID header.
pub open spec fn edid_header_ok(b: Seq<u8>) -> bool {
    b[0] == 0x00 && b[1] == 0xff && b[2] == 0xff && b[3] == 0xff && b[4] == 0xff && b[5] == 0xff
        && b[6] == 0xff && b[7] == 0x00
}

/// Descriptor `k` (0 to 3) starts at byte 54 + 18k; a zero pixel clock in its first
/// three bytes marks a display descriptor, and byte 3 says which kind. Later
/// descriptors of the same kind replace earlier ones.
pub open spec fn desc_pick(b: Seq<u8>, tag: u8, k: nat) -> Option<Seq<char>>
    decreases k,
{
    if k == 0 {
        None
    } else {
        let prev = desc_pick(b, tag, (k - 1) as nat);
        let off = 54 + 18 * (k - 1);
        if b[off] == 0 && b[off + 1] == 0 && b[off + 2] == 0 && b[off + 3] == tag {
            descriptor_text_of(b.subrange(off, off + 18))
        } else {
            prev
        }
    }
}

/// The EDID a blob holds: at least a 128-byte base block with the fixed header and a
/// zero checksum (a monitor behind a flaky cable or a bad KVM hands out corrupted
/// blobs, and reporting garbage from them is worse than reporting nothing).
pub open spec fn edid_of(blob: Seq<u8>) -> Option<EdidView> {
    if blob.len() < 128 || !edid_header_ok(blob) || byte_sum(blob.subrange(0, 128)) != 0 {
        None
    } else {
        let b = blob;
        let serial = (b[12] as u32) | ((b[13] as u32) << 8) | ((b[14] as u32) << 16) | ((b[15] as u32) << 24);
        Some(EdidView {
            manufacturer: manufacturer_of(((b[8] as u16) << 8) | (b[9] as u16)),
            model_name: desc_pick(b, 0xfc, 4),
            serial_string: desc_pick(b, 0xff, 4),
            serial_number: if serial != 0 {
                Some(serial)
            } else {
                None
            },
            // Byte 17 holds the year of manufacture, offset from 1990; 0 means unstated.
            year: if b[17] != 0 {
                Some((1990 + b[17]) as u32)
            } else {
                None
            },
            // Bytes 21-22 are the image size in whole centimetres; both zero means
            // undefined (projectors), not a 0 mm panel.
            physical_mm: if b[21] != 0 && b[22] != 0 {
                Some(((b[21] * 10) as u32, (b[22] * 10) as u32))
            } else {
                None
            },
        })
    }
}

/// Display descriptor `k` (0 to 3, at bytes 54, 72, 90 and 108) is a text descriptor
/// of kind `tag`: a zero pixel clock, then the kind byte.
pub open spec fn descriptor_offset(k: int) -> int {
    if k == 0 {
        54
    } else if k == 1 {
        72
    } else if k == 2 {
        90
    } else {
        108
    }
}

pub open spec fn text_descriptor_at(b: Seq<u8>, k: int, tag: u8) -> bool {
    let off = descriptor_offset(k);
    b[off] == 0 && b[off + 1] == 0 && b[off + 2] == 0 && b[off + 3] == tag
}

/// Every one of the four display descriptors is read, and the last text descriptor of
/// a kind wins: in a valid base block, the monitor name (kind `0xFC`) and the serial
/// string (kind `0xFF`) are the text of the last descriptor of that kind, wherever it
/// stands, and there is none when no descriptor is of that kind.
pub proof fn lemma_edid_reads_every_descriptor(blob: Seq<u8>, tag: u8, k: int)
    requires
        edid_of(blob) is Some,
        tag == 0xfc || tag == 0xff,
        0 <= k < 4,
    ensures
        text_descriptor_at(blob, k, tag) && (forall|j: int| k < j < 4 ==> !#[trigger] text_descriptor_at(blob, j, tag))
            ==> (if tag == 0xfc {
            edid_of(blob)->0.model_name
        } else {
            edid_of(blob)->0.serial_string
        }) == descriptor_text_of(blob.subrange(descriptor_offset(k), descriptor_offset(k) + 18)),
        (forall|j: int| 0 <= j < 4 ==> !#[trigger] text_descriptor_at(blob, j, tag)) ==> (if tag == 0xfc {
            edid_of(blob)->0.model_name
        } else {
            edid_of(blob)->0.serial_string
        }) is None,
{
    reveal_with_fuel(desc_pick, 5);
    assert(text_descriptor_at(blob, 0, tag) == (blob[54] == 0 && blob[55] == 0 && blob[56] == 0 && blob[57] == tag));
    assert(text_descriptor_at(blob, 1, tag) == (blob[72] == 0 && blob[73] == 0 && blob[74] == 0 && blob[75] == tag));
    assert(text_descriptor_at(blob, 2, tag) == (blob[90] == 0 && blob[91] == 0 && blob[92] == 0 && blob[93] == tag));
    assert(text_descriptor_at(blob, 3, tag) == (blob[108] == 0 && blob[109] == 0 && blob[110] == 0 && blob[111] == tag));
}

pub open spec fn edid_opt(o: Option<Edid>) -> Option<EdidView> {
    match o {
        Some(e) => Some(e@),
        None => None,
    }
}

pub fn parse_edid(blob: &[u8]) -> (r: Option<Edid>)
    ensures
        edid_opt(r) == edid_of(blob@),
{
    if blob.len() < EDID_BASE_LEN {
        return None;
    }
    if !(blob[0] == 0x00 && blob[1] == 0xff && blob[2] == 0xff && blob[3] == 0xff && blob[4] == 0xff
        && blob[5] == 0xff && blob[6] == 0xff && blob[7] == 0x00) {
        return None;
    }
    let mut sum: u8 = 0;
    let mut i: usize = 0;
    while i < EDID_BASE_LEN
        invariant
            i <= 128,
            128 <= blob@.len(),
            sum as nat == byte_sum(blob@.subrange(0, i as int)),
        decreases 128 - i,
    {
        proof {
            assert(blob@.subrange(0, i + 1).drop_last() =~= blob@.subrange(0, i as int));
            assert(blob@.subrange(0, i + 1).last() == blob@[i as int]);
        }
        sum = ((sum as u16 + blob[i] as u16) % 256) as u8;
        i += 1;
    }
    if sum != 0 {
        return None;
    }
    let manufacturer = manufacturer_code(((blob[8] as u16) << 8) | (blob[9] as u16));
    let serial = (blob[12] as u32) | ((blob[13] as u32) << 8) | ((blob[14] as u32) << 16) | ((blob[15] as u32) << 24);
    let mut model_name: Option<String> = None;
    let mut serial_string: Option<String> = None;
    let mut k: usize = 0;
    while k < 4
        invariant
            k <= 4,
            128 <= blob@.len(),
            string_opt(model_name) == desc_pick(blob@, 0xfc, k as nat),
            string_opt(serial_string) == desc_pick(blob@, 0xff, k as nat),
        decreases 4 - k,
    {
        let off = 54 + 18 * k;
        if blob[off] == 0 && blob[off + 1] == 0 && blob[off + 2] == 0 {
            let tag = blob[off + 3];
            if tag == 0xfc || tag == 0xff {
                let mut d: Vec<u8> = Vec::new();
                let mut j: usize = off;
                while j < off + 18
                    invariant
                        off <= j <= off + 18,
                        off + 18 <= 128 <= blob@.len(),
                        d@ == blob@.subrange(off as int, j as int),
                    decreases off + 18 - j,
                {
                    proof {
                        assert(blob@.subrange(off as int, j + 1) =~= blob@.subrange(off as int, j as int).push(blob@[j as int]));
                    }
                    d.push(blob[j]);
                    j += 1;
                }
                let t = descriptor_text(d.as_slice());
                if tag == 0xfc {
                    model_name = t;
                } else {
                    serial_string = t;
                }
            }
        }
        k += 1;
    }
    let year = if blob[17] != 0 {
        Some(1990 + blob[17] as u32)
    } else {
        None
    };
    let physical_mm = if blob[21] != 0 && blob[22] != 0 {
        Some((blob[21] as u32 * 10, blob[22] as u32 * 10))
    } else {
        None
    };
    Some(Edid {
        manufacturer,
        model_name,
        serial_string,
        serial_number: if serial != 0 {
            Some(serial)
        } else {
            None
        },
        year,
        physical_mm,
    })
}

// ---------------------------------------------------------------- displays

/// The make a manufacturer code gives: its hwdata vendor name, or the code itself.
pub open spec fn make_of(ids: IdsView, code: Option<Seq<char>>) -> Option<Seq<char>> {
    match code {
        Some(c) => match ids.pnp_vendors.get(ascii_upper(trim_ws(c))) {
            Some(name) => Some(name),
            None => Some(c),
        },
        None => None,
    }
}

/// The serial to show: the `0xFF` descriptor string, which is what the vendor prints on
/// the label, and the numeric serial of bytes 12-15 only as a fallback.
pub open spec fn serial_of(e: EdidView) -> Option<Seq<char>> {
    match e.serial_string {
        Some(s) => Some(s),
        None => match e.serial_number {
            Some(n) => Some(dec_str(n as nat)),
            None => None,
        },
    }
}

/// Fills in what an EDID says about the monitor.
pub fn apply_edid(display: &mut Display, edid: Edid, ids: &HwIds)
    requires
        ids.wf(),
    ensures
        final(display).connector == old(display).connector,
        final(display).connected == old(display).connected,
        final(display).preferred_mode == old(display).preferred_mode,
        final(display).mode_count == old(display).mode_count,
        string_opt(final(display).make) == make_of(ids@, edid@.manufacturer),
        string_opt(final(display).model) == edid@.model_name,
        string_opt(final(display).serial) == serial_of(edid@),
        final(display).year == edid.year,
        final(display).physical_mm == edid.physical_mm,
{
    let ghost e = edid@;
    display.make = match edid.manufacturer {
        Some(code) => match ids.pnp_vendor(code.as_str()) {
            Some(name) => Some(name.to_owned()),
            None => Some(code),
        },
        None => None,
    };
    display.model = edid.model_name;
    display.serial = match edid.serial_string {
        Some(s) => Some(s),
        None => match edid.serial_number {
            Some(n) => {
                let d = dec_chars(n as u64);
                Some(string_of(d.as_slice()))
            },
            None => None,
        },
    };
    display.year = edid.year;
    display.physical_mm = edid.physical_mm;
}

/// What one entry of `/sys/class/drm` gave.
pub struct ConnectorSource {
    pub name: String,
    /// Only `status` is trusted: under the proprietary NVIDIA driver every connector
    /// reports `enabled=disabled` and `dpms=Off` even while it drives a monitor.
    pub status: Attr,
    pub modes: Attr,
    /// The `edid` binary attribute, read to its end (sysfs claims size 0 for it).
    pub edid: Option<Vec<u8>>,
}

pub open spec fn edid_in(e: ConnectorSource) -> Option<EdidView> {
    match e.edid {
        Some(b) => edid_of(b@),
        None => None,
    }
}

/// `d` is the display entry `e` describes.
pub open spec fn display_ok(ids: IdsView, e: ConnectorSource, d: Display) -> bool {
    &&& Some(d.connector@) == connector_of(e.name@)
    &&& d.connected == (attr_text(e.status) == Some("connected"@))
    &&& (string_opt(d.preferred_mode), d.mode_count as nat) == modes_of(e.modes)
    &&& match edid_in(e) {
        Some(x) => {
            &&& string_opt(d.make) == make_of(ids, x.manufacturer)
            &&& string_opt(d.model) == x.model_name
            &&& string_opt(d.serial) == serial_of(x)
            &&& d.year == x.year
            &&& d.physical_mm == x.physical_mm
        },
        None => d.make is None && d.model is None && d.serial is None && d.year is None
            && d.physical_mm is None,
    }
}

pub open spec fn connector_positions(es: Seq<ConnectorSource>) -> Seq<int>
    decreases es.len(),
{
    if es.len() == 0 {
        seq![]
    } else {
        let p = connector_positions(es.drop_last());
        if connector_of(es.last().name@) is Some {
            p.push(es.len() - 1)
        } else {
            p
        }
    }
}

/// Every connector among the DRM entries, in the order given.
pub fn displays(es: &Vec<ConnectorSource>, ids: &HwIds) -> (out: Vec<Display>)
    requires
        ids.wf(),
    ensures
        out@.len() == connector_positions(es@).len(),
        forall|j: int| 0 <= j < out@.len() ==> #[trigger] display_ok(ids@, es@[connector_positions(es@)[j]], out@[j]),
{
    let connected_word = chars_of("connected");
    let mut out: Vec<Display> = Vec::new();
    let mut i: usize = 0;
    while i < es.len()
        invariant
            i <= es@.len(),
            ids.wf(),
            connected_word@ == "connected"@,
            out@.len() == connector_positions(es@.subrange(0, i as int)).len(),
            forall|j: int| 0 <= j < out@.len() ==> #[trigger] display_ok(ids@, es@[connector_positions(es@.subrange(0, i as int))[j]], out@[j]),
            forall|j: int| 0 <= j < connector_positions(es@.subrange(0, i as int)).len() ==> 0 <= #[trigger] connector_positions(es@.subrange(0, i as int))[j] < i,
        decreases es@.len() - i,
    {
        let ghost prev = connector_positions(es@.subrange(0, i as int));
        proof {
            assert(es@.subrange(0, i + 1).drop_last() =~= es@.subrange(0, i as int));
            assert(es@.subrange(0, i + 1).last() == es@[i as int]);
        }
        let e = &es[i];
        match connector_name(e.name.as_str()) {
            Some(connector) => {
                let connected = match attr_trim(&e.status) {
                    Some(st) => {
                        let c = chars_of(st.as_str());
                        chars_eq(c.as_slice(), connected_word.as_slice())
                    },
                    None => false,
                };
                let (preferred_mode, mode_count) = modes(&e.modes);
                let mut d = Display {
                    connector,
                    connected,
                    make: None,
                    model: None,
                    serial: None,
                    year: None,
                    physical_mm: None,
                    preferred_mode,
                    mode_count,
                };
                match &e.edid {
                    Some(blob) => match parse_edid(blob.as_slice()) {
                        Some(edid) => {
                            apply_edid(&mut d, edid, ids);
                        },
                        None => {},
                    },
                    None => {},
                }
                out.push(d);
                proof {
                    let now = connector_positions(es@.subrange(0, i + 1));
                    assert(now == prev.push(i as int));
                    assert forall|j: int| 0 <= j < out@.len() implies #[trigger] display_ok(ids@, es@[now[j]], out@[j]) by {
                        if j < prev.len() {
                            assert(now[j] == prev[j]);
                        }
                    }
                }
            },
            None => {},
        }
        i += 1;
    }
    proof {
        assert(es@.subrange(0, es@.len() as int) =~= es@);
    }
    out
}

/// The graphics block: the GPUs among the PCI devices and the displays among the DRM
/// connector entries.
pub fn probe(
    pci: &Vec<PciDevice>,
    versions: &Vec<Option<String>>,
    connectors: &Vec<ConnectorSource>,
    ids: &HwIds,
) -> (g: super::Graphics)
    requires
        ids.wf(),
    ensures
        g.gpus@.len() == display_positions(pci@).len(),
        forall|j: int| 0 <= j < g.gpus@.len() ==> #[trigger] gpu_ok(
            pci@[display_positions(pci@)[j]],
            version_at(versions@, j),
            g.gpus@[j],
        ),
        g.displays@.len() == connector_positions(connectors@).len(),
        forall|j: int| 0 <= j < g.displays@.len() ==> #[trigger] display_ok(ids@, connectors@[connector_positions(connectors@)[j]], g.displays@[j]),
{
    super::Graphics { gpus: gpus(pci, versions), displays: displays(connectors, ids) }
}

} // verus!
