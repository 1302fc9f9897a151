//! Numeric hardware id -> human name, out of the system `hwdata` database.
//!
//! `pci.ids` alone is 1.6 MB / 43k lines and `usb.ids` another 730 KB. A full parse
//! would build ~68k `String`s to answer the ~40 questions a single machine actually
//! raises, so the parsers take a [`Wanted`] set gathered by the pci/usb probes and
//! allocate only for ids that are in it. The class tables of both files and all of
//! `pnp.ids` are parsed in full instead - together they are under 500 lines and every
//! device asks about its class.
//!
//! The files are read as bytes, each byte taken as the character with that code
//! (`latin1`), so a Latin-1 vendor name in an old release cannot stop the parse; only
//! the names that are kept are decoded, lossily, as UTF-8.
use vstd::prelude::*;
use crate::num::{all_digits, digits_u64, digits_value};
use crate::hardware::or_else;
use crate::table::{KeySet, StrTable, Table};
use crate::text::{
    ascii_lower, ascii_upper, chars_eq, chars_of, fields, fields_of, in_class, is_alnum, latin1,
    latin1_of, lead, lemma_lead_bounds, lossy, lowercase, skip_in, slice_to_vec, split,
    split_char, split_once, split_once_at, str_to_lowercase, string_of, strip_cr, to_ascii_lower,
    to_ascii_upper, trim, trim_bounds, trim_ws, trimmed, unlatin1, unlatin1_of, utf8_lossy, views,
    Class, first_in,
};

verus! {

// ---------------------------------------------------------------- keys

/// Key of a pair of 16-bit ids.
pub open spec fn key2(a: u16, b: u16) -> u64 {
    (a * 65536 + b) as u64
}

/// Key of a quad of 16-bit ids (a PCI subsystem).
pub open spec fn key4(a: u16, b: u16, c: u16, d: u16) -> u64 {
    (a * 0x1_0000_0000_0000 + b * 0x1_0000_0000 + c * 65536 + d) as u64
}

/// Key of a pair of 8-bit ids (a subclass).
pub open spec fn key2b(a: u8, b: u8) -> u64 {
    (a * 256 + b) as u64
}

/// Key of a triple of 8-bit ids (a prog-if or protocol).
pub open spec fn key3b(a: u8, b: u8, c: u8) -> u64 {
    (a * 65536 + b * 256 + c) as u64
}

pub fn k2(a: u16, b: u16) -> (k: u64)
    ensures
        k == key2(a, b),
{
    (a as u64) * 65536 + (b as u64)
}

pub fn k4(a: u16, b: u16, c: u16, d: u16) -> (k: u64)
    ensures
        k == key4(a, b, c, d),
{
    (a as u64) * 0x1_0000_0000_0000 + (b as u64) * 0x1_0000_0000 + (c as u64) * 65536 + (d as u64)
}

pub fn k2b(a: u8, b: u8) -> (k: u64)
    ensures
        k == key2b(a, b),
{
    (a as u64) * 256 + (b as u64)
}

pub fn k3b(a: u8, b: u8, c: u8) -> (k: u64)
    ensures
        k == key3b(a, b, c),
{
    (a as u64) * 65536 + (b as u64) * 256 + (c as u64)
}

// ---------------------------------------------------------------- wanted

/// The ids a given machine needs resolved. Filled in by `pci::collect_wanted` and
/// `usb::collect_wanted` before the hwdata files are opened.
pub struct Wanted {
    pub pci_vendors: KeySet,
    pub pci_devices: KeySet,
    pub pci_subsystems: KeySet,
    pub usb_vendors: KeySet,
    pub usb_devices: KeySet,
}

impl Wanted {
    pub fn new() -> (w: Self)
        ensures
            w.pci_vendors@ == Set::<u64>::empty(),
            w.pci_devices@ == Set::<u64>::empty(),
            w.pci_subsystems@ == Set::<u64>::empty(),
            w.usb_vendors@ == Set::<u64>::empty(),
            w.usb_devices@ == Set::<u64>::empty(),
    {
        Wanted {
            pci_vendors: KeySet::new(),
            pci_devices: KeySet::new(),
            pci_subsystems: KeySet::new(),
            usb_vendors: KeySet::new(),
            usb_devices: KeySet::new(),
        }
    }

    pub fn add_pci_vendor(&mut self, vendor: u16)
        ensures
            final(self).pci_vendors@ == old(self).pci_vendors@.insert(vendor as u64),
            final(self).pci_devices@ == old(self).pci_devices@,
            final(self).pci_subsystems@ == old(self).pci_subsystems@,
            final(self).usb_vendors@ == old(self).usb_vendors@,
            final(self).usb_devices@ == old(self).usb_devices@,
    {
        self.pci_vendors.insert(vendor as u64);
    }

    pub fn add_pci_device(&mut self, vendor: u16, device: u16)
        ensures
            final(self).pci_devices@ == old(self).pci_devices@.insert(key2(vendor, device)),
            final(self).pci_vendors@ == old(self).pci_vendors@,
            final(self).pci_subsystems@ == old(self).pci_subsystems@,
            final(self).usb_vendors@ == old(self).usb_vendors@,
            final(self).usb_devices@ == old(self).usb_devices@,
    {
        self.pci_devices.insert(k2(vendor, device));
    }

    pub fn add_pci_subsystem(&mut self, vendor: u16, device: u16, sub_vendor: u16, sub_device: u16)
        ensures
            final(self).pci_subsystems@ == old(self).pci_subsystems@.insert(
                key4(vendor, device, sub_vendor, sub_device),
            ),
            final(self).pci_vendors@ == old(self).pci_vendors@,
            final(self).pci_devices@ == old(self).pci_devices@,
            final(self).usb_vendors@ == old(self).usb_vendors@,
            final(self).usb_devices@ == old(self).usb_devices@,
    {
        self.pci_subsystems.insert(k4(vendor, device, sub_vendor, sub_device));
    }

    pub fn add_usb_vendor(&mut self, vendor: u16)
        ensures
            final(self).usb_vendors@ == old(self).usb_vendors@.insert(vendor as u64),
            final(self).pci_vendors@ == old(self).pci_vendors@,
            final(self).pci_devices@ == old(self).pci_devices@,
            final(self).pci_subsystems@ == old(self).pci_subsystems@,
            final(self).usb_devices@ == old(self).usb_devices@,
    {
        self.usb_vendors.insert(vendor as u64);
    }

    pub fn add_usb_device(&mut self, vendor: u16, product: u16)
        ensures
            final(self).usb_devices@ == old(self).usb_devices@.insert(key2(vendor, product)),
            final(self).pci_vendors@ == old(self).pci_vendors@,
            final(self).pci_devices@ == old(self).pci_devices@,
            final(self).pci_subsystems@ == old(self).pci_subsystems@,
            final(self).usb_vendors@ == old(self).usb_vendors@,
    {
        self.usb_devices.insert(k2(vendor, product));
    }
}

pub struct WantedView {
    pub pci_vendors: Set<u64>,
    pub pci_devices: Set<u64>,
    pub pci_subsystems: Set<u64>,
    pub usb_vendors: Set<u64>,
    pub usb_devices: Set<u64>,
}

impl View for Wanted {
    type V = WantedView;

    open spec fn view(&self) -> WantedView {
        WantedView {
            pci_vendors: self.pci_vendors@,
            pci_devices: self.pci_devices@,
            pci_subsystems: self.pci_subsystems@,
            usb_vendors: self.usb_vendors@,
            usb_devices: self.usb_devices@,
        }
    }
}

// ---------------------------------------------------------------- the tables

pub struct HwIds {
    /// At least one hwdata file was readable. Everything else can legitimately be empty.
    loaded_any: bool,
    pci_vendors: Table,
    pci_devices: Table,
    pci_subsystems: Table,
    pci_classes: Table,
    pci_subclasses: Table,
    pci_progifs: Table,
    usb_vendors: Table,
    usb_devices: Table,
    usb_classes: Table,
    usb_subclasses: Table,
    usb_protocols: Table,
    pnp_vendors: StrTable,
}

/// Everything an `HwIds` knows, as maps.
pub struct IdsView {
    pub loaded_any: bool,
    /// Keyed by the vendor id.
    pub pci_vendors: Map<u64, Seq<char>>,
    /// Keyed by `key2(vendor, device)`.
    pub pci_devices: Map<u64, Seq<char>>,
    /// Keyed by `key4(vendor, device, subsystem vendor, subsystem device)`.
    pub pci_subsystems: Map<u64, Seq<char>>,
    /// Keyed by the base class.
    pub pci_classes: Map<u64, Seq<char>>,
    /// Keyed by `key2b(class, subclass)`.
    pub pci_subclasses: Map<u64, Seq<char>>,
    /// Keyed by `key3b(class, subclass, prog-if)`.
    pub pci_progifs: Map<u64, Seq<char>>,
    pub usb_vendors: Map<u64, Seq<char>>,
    pub usb_devices: Map<u64, Seq<char>>,
    pub usb_classes: Map<u64, Seq<char>>,
    pub usb_subclasses: Map<u64, Seq<char>>,
    pub usb_protocols: Map<u64, Seq<char>>,
    /// Keyed by the upper-cased three-letter code.
    pub pnp_vendors: Map<Seq<char>, Seq<char>>,
}

impl View for HwIds {
    type V = IdsView;

    closed spec fn view(&self) -> IdsView {
        IdsView {
            loaded_any: self.loaded_any,
            pci_vendors: self.pci_vendors@,
            pci_devices: self.pci_devices@,
            pci_subsystems: self.pci_subsystems@,
            pci_classes: self.pci_classes@,
            pci_subclasses: self.pci_subclasses@,
            pci_progifs: self.pci_progifs@,
            usb_vendors: self.usb_vendors@,
            usb_devices: self.usb_devices@,
            usb_classes: self.usb_classes@,
            usb_subclasses: self.usb_subclasses@,
            usb_protocols: self.usb_protocols@,
            pnp_vendors: self.pnp_vendors@,
        }
    }
}

pub open spec fn empty_ids() -> IdsView {
    IdsView {
        loaded_any: false,
        pci_vendors: Map::empty(),
        pci_devices: Map::empty(),
        pci_subsystems: Map::empty(),
        pci_classes: Map::empty(),
        pci_subclasses: Map::empty(),
        pci_progifs: Map::empty(),
        usb_vendors: Map::empty(),
        usb_devices: Map::empty(),
        usb_classes: Map::empty(),
        usb_subclasses: Map::empty(),
        usb_protocols: Map::empty(),
        pnp_vendors: Map::empty(),
    }
}

// ---------------------------------------------------------------- line grammar

/// The lines of a hwdata file: split at every `\n`, one trailing `\r` dropped from each.
pub open spec fn data_lines(d: Seq<u8>) -> Seq<Seq<char>> {
    split(latin1(d), '\n').map_values(|l: Seq<char>| strip_cr(l))
}

/// The name a kept entry gets: its bytes decoded lossily.
pub open spec fn name_of(c: Seq<char>) -> Seq<char> {
    utf8_lossy(unlatin1(c))
}

/// Splits a section line such as `C 03  Display controller` at its first space.
pub open spec fn split_marker(line: Seq<char>) -> (Seq<char>, Seq<char>) {
    match split_once(line, ' ') {
        Some(p) => p,
        None => (line, seq![]),
    }
}

/// Index of the first two consecutive spaces, or `s.len()`.
pub open spec fn double_space(s: Seq<char>) -> nat
    decreases s.len(),
{
    if s.len() < 2 {
        s.len()
    } else if s[0] == ' ' && s[1] == ' ' {
        0
    } else {
        1 + double_space(s.drop_first())
    }
}

/// Splits `1234  Some Name` at the mandatory two-space separator; the name loses its
/// surrounding ASCII whitespace, and neither part may be empty.
pub open spec fn split_entry(rest: Seq<char>) -> Option<(Seq<char>, Seq<char>)> {
    let p = double_space(rest) as int;
    if p < rest.len() {
        let id = rest.subrange(0, p);
        let name = trim(rest.subrange(p + 2, rest.len() as int), Class::AsciiWs);
        if id.len() == 0 || name.len() == 0 {
            None
        } else {
            Some((id, name))
        }
    } else {
        None
    }
}

/// A hex id of one to eight digits.
pub open spec fn hex_id(id: Seq<char>) -> Option<nat> {
    if 1 <= id.len() <= 8 && all_digits(id, 16) {
        Some(digits_value(id, 16))
    } else {
        None
    }
}

pub open spec fn entry8(rest: Seq<char>) -> Option<(u8, Seq<char>)> {
    match split_entry(rest) {
        Some((id, name)) => match hex_id(id) {
            Some(v) => if v <= u8::MAX {
                Some((v as u8, name))
            } else {
                None
            },
            None => None,
        },
        None => None,
    }
}

pub open spec fn entry16(rest: Seq<char>) -> Option<(u16, Seq<char>)> {
    match split_entry(rest) {
        Some((id, name)) => match hex_id(id) {
            Some(v) => if v <= u16::MAX {
                Some((v as u16, name))
            } else {
                None
            },
            None => None,
        },
        None => None,
    }
}

/// The `ssss ssss` id pair of a pci.ids subsystem line.
pub open spec fn sub_ids(id: Seq<char>) -> Option<(u16, u16)> {
    match split_once(id, ' ') {
        Some((a, b)) => match (hex_id(a), hex_id(b)) {
            (Some(x), Some(y)) => if x <= u16::MAX && y <= u16::MAX {
                Some((x as u16, y as u16))
            } else {
                None
            },
            _ => None,
        },
        None => None,
    }
}

pub open spec fn is_ascii_upper(c: char) -> bool {
    'A' <= c && c <= 'Z'
}

#[derive(Clone, Copy)]
pub enum Section {
    Vendors,
    Classes,
    Other,
}

/// Where a parse stands between two lines.
pub struct ParseState {
    pub section: Section,
    pub vendor: Option<u16>,
    pub device: Option<u16>,
    pub class: Option<u8>,
    pub subclass: Option<u8>,
    pub ids: IdsView,
}

pub open spec fn start_state(ids: IdsView) -> ParseState {
    ParseState {
        section: Section::Vendors,
        vendor: None,
        device: None,
        class: None,
        subclass: None,
        ids,
    }
}

/// A line starting with a capital letter opens a section; only `C` is kept, and its
/// class entry is recorded in the table `classes` picks.
pub open spec fn section_line(st: ParseState, line: Seq<char>, usb: bool) -> ParseState {
    let (marker, rest) = split_marker(line);
    let classes = marker == seq!['C'];
    let base = ParseState {
        section: if classes {
            Section::Classes
        } else {
            Section::Other
        },
        vendor: None,
        device: None,
        class: None,
        subclass: None,
        ids: st.ids,
    };
    match entry8(rest) {
        Some((id, name)) => if classes {
            ParseState {
                class: Some(id),
                ids: if usb {
                    IdsView { usb_classes: st.ids.usb_classes.insert(id as u64, name_of(name)), ..st.ids }
                } else {
                    IdsView { pci_classes: st.ids.pci_classes.insert(id as u64, name_of(name)), ..st.ids }
                },
                ..base
            }
        } else {
            base
        },
        None => base,
    }
}

/// A vendor line, `10de  NVIDIA Corporation`: its name is kept when the vendor is wanted.
pub open spec fn pci_vendor_entry(st: ParseState, rest: Seq<char>, w: WantedView) -> ParseState {
    match entry16(rest) {
        Some((id, name)) => ParseState {
            vendor: Some(id),
            device: None,
            ids: if w.pci_vendors.contains(id as u64) {
                IdsView { pci_vendors: st.ids.pci_vendors.insert(id as u64, name_of(name)), ..st.ids }
            } else {
                st.ids
            },
            ..st
        },
        None => ParseState { vendor: None, device: None, ..st },
    }
}

/// A device line under the current vendor.
pub open spec fn pci_device_entry(st: ParseState, rest: Seq<char>, w: WantedView) -> ParseState {
    match (st.vendor, entry16(rest)) {
        (Some(v), Some((id, name))) => ParseState {
            device: Some(id),
            ids: if w.pci_devices.contains(key2(v, id)) {
                IdsView { pci_devices: st.ids.pci_devices.insert(key2(v, id), name_of(name)), ..st.ids }
            } else {
                st.ids
            },
            ..st
        },
        _ => ParseState { device: None, ..st },
    }
}

/// A subsystem line, `\t\tssss ssss  Name`: two ids sharing one entry.
pub open spec fn pci_subsystem_entry(st: ParseState, rest: Seq<char>, w: WantedView) -> ParseState {
    match (st.vendor, st.device, split_entry(rest)) {
        (Some(v), Some(d), Some((id, name))) => match sub_ids(id) {
            Some((sv, sd)) => if w.pci_subsystems.contains(key4(v, d, sv, sd)) {
                ParseState {
                    ids: IdsView {
                        pci_subsystems: st.ids.pci_subsystems.insert(key4(v, d, sv, sd), name_of(name)),
                        ..st.ids
                    },
                    ..st
                }
            } else {
                st
            },
            None => st,
        },
        _ => st,
    }
}

/// A subclass line under the current class.
pub open spec fn subclass_entry(st: ParseState, rest: Seq<char>, usb: bool) -> ParseState {
    match (st.class, entry8(rest)) {
        (Some(c), Some((id, name))) => ParseState {
            subclass: Some(id),
            ids: if usb {
                IdsView { usb_subclasses: st.ids.usb_subclasses.insert(key2b(c, id), name_of(name)), ..st.ids }
            } else {
                IdsView { pci_subclasses: st.ids.pci_subclasses.insert(key2b(c, id), name_of(name)), ..st.ids }
            },
            ..st
        },
        _ => ParseState { subclass: None, ..st },
    }
}

/// A prog-if (PCI) or protocol (USB) line under the current subclass.
pub open spec fn progif_entry(st: ParseState, rest: Seq<char>, usb: bool) -> ParseState {
    match (st.class, st.subclass, entry8(rest)) {
        (Some(c), Some(s), Some((id, name))) => ParseState {
            ids: if usb {
                IdsView { usb_protocols: st.ids.usb_protocols.insert(key3b(c, s, id), name_of(name)), ..st.ids }
            } else {
                IdsView { pci_progifs: st.ids.pci_progifs.insert(key3b(c, s, id), name_of(name)), ..st.ids }
            },
            ..st
        },
        _ => st,
    }
}

/// A vendor line of `usb.ids`.
pub open spec fn usb_vendor_entry(st: ParseState, rest: Seq<char>, w: WantedView) -> ParseState {
    match entry16(rest) {
        Some((id, name)) => ParseState {
            vendor: Some(id),
            ids: if w.usb_vendors.contains(id as u64) {
                IdsView { usb_vendors: st.ids.usb_vendors.insert(id as u64, name_of(name)), ..st.ids }
            } else {
                st.ids
            },
            ..st
        },
        None => ParseState { vendor: None, ..st },
    }
}

/// A device line of `usb.ids`.
pub open spec fn usb_device_entry(st: ParseState, rest: Seq<char>, w: WantedView) -> ParseState {
    match (st.vendor, entry16(rest)) {
        (Some(v), Some((id, name))) => if w.usb_devices.contains(key2(v, id)) {
            ParseState {
                ids: IdsView { usb_devices: st.ids.usb_devices.insert(key2(v, id), name_of(name)), ..st.ids },
                ..st
            }
        } else {
            st
        },
        _ => st,
    }
}

/// Tab depth of a line.
pub open spec fn depth_of(line: Seq<char>) -> nat {
    lead(line, Class::Is('\t'))
}

/// A line without its leading tabs.
pub open spec fn after_tabs(line: Seq<char>) -> Seq<char> {
    line.subrange(depth_of(line) as int, line.len() as int)
}

/// One line of `pci.ids`.
pub open spec fn pci_step(st: ParseState, line: Seq<char>, w: WantedView) -> ParseState {
    if line.len() == 0 || line[0] == '#' {
        st
    } else if is_ascii_upper(line[0]) {
        section_line(st, line, false)
    } else {
        let depth = depth_of(line);
        let rest = after_tabs(line);
        match st.section {
            Section::Vendors => if depth == 0 {
                pci_vendor_entry(st, rest, w)
            } else if depth == 1 {
                pci_device_entry(st, rest, w)
            } else if depth == 2 {
                pci_subsystem_entry(st, rest, w)
            } else {
                st
            },
            Section::Classes => if depth == 1 {
                subclass_entry(st, rest, false)
            } else if depth == 2 {
                progif_entry(st, rest, false)
            } else {
                st
            },
            Section::Other => st,
        }
    }
}

/// One line of `usb.ids`. Depth 2 in the vendor tree (per-device interface names) is
/// never stored: sysfs gives no id to look it up by.
pub open spec fn usb_step(st: ParseState, line: Seq<char>, w: WantedView) -> ParseState {
    if line.len() == 0 || line[0] == '#' {
        st
    } else if is_ascii_upper(line[0]) {
        section_line(st, line, true)
    } else {
        let depth = depth_of(line);
        let rest = after_tabs(line);
        match st.section {
            Section::Vendors => if depth == 0 {
                usb_vendor_entry(st, rest, w)
            } else if depth == 1 {
                usb_device_entry(st, rest, w)
            } else {
                st
            },
            Section::Classes => if depth == 1 {
                subclass_entry(st, rest, true)
            } else if depth == 2 {
                progif_entry(st, rest, true)
            } else {
                st
            },
            Section::Other => st,
        }
    }
}

pub open spec fn pci_run(ls: Seq<Seq<char>>, st: ParseState, w: WantedView) -> ParseState
    decreases ls.len(),
{
    if ls.len() == 0 {
        st
    } else {
        pci_run(ls.drop_first(), pci_step(st, ls[0], w), w)
    }
}

pub open spec fn usb_run(ls: Seq<Seq<char>>, st: ParseState, w: WantedView) -> ParseState
    decreases ls.len(),
{
    if ls.len() == 0 {
        st
    } else {
        usb_run(ls.drop_first(), usb_step(st, ls[0], w), w)
    }
}

/// The entry one `pnp.ids` line gives: `SAM\tSamsung Electric Company`.
pub open spec fn pnp_line(line: Seq<char>) -> Option<(Seq<char>, Seq<char>)> {
    if line.len() == 0 || line[0] == '#' {
        None
    } else {
        match split_once(name_of(line), '\t') {
            Some((code, name)) => {
                let (c, n) = (trim_ws(code), trim_ws(name));
                if c.len() == 0 || n.len() == 0 {
                    None
                } else {
                    Some((ascii_upper(c), n))
                }
            },
            None => None,
        }
    }
}

pub open spec fn pnp_run(ls: Seq<Seq<char>>, m: Map<Seq<char>, Seq<char>>) -> Map<Seq<char>, Seq<char>>
    decreases ls.len(),
{
    if ls.len() == 0 {
        m
    } else {
        pnp_run(
            ls.drop_first(),
            match pnp_line(ls[0]) {
                Some((c, n)) => m.insert(c, n),
                None => m,
            },
        )
    }
}

// ---------------------------------------------------------------- exec helpers

proof fn lemma_double_space(s: Seq<char>)
    ensures
        double_space(s) <= s.len(),
        double_space(s) < s.len() ==> double_space(s) + 1 < s.len() && s[double_space(s) as int]
            == ' ' && s[double_space(s) + 1int] == ' ',
        forall|j: int|
            0 <= j < double_space(s) && j + 1 < s.len() ==> !(#[trigger] s[j] == ' ' && s[j + 1] == ' '),
    decreases s.len(),
{
    if s.len() >= 2 && !(s[0] == ' ' && s[1] == ' ') {
        lemma_double_space(s.drop_first());
        assert forall|j: int|
            0 <= j < double_space(s) && j + 1 < s.len() implies !(#[trigger] s[j] == ' ' && s[j + 1]
            == ' ') by {
            if j > 0 {
                assert(s[j] == s.drop_first()[j - 1]);
                assert(s[j + 1] == s.drop_first()[j]);
            }
        }
    }
}

proof fn lemma_double_space_at(s: Seq<char>, p: int)
    requires
        0 <= p <= s.len(),
        forall|j: int| 0 <= j < p && j + 1 < s.len() ==> !(#[trigger] s[j] == ' ' && s[j + 1] == ' '),
        p == s.len() || (p + 1 < s.len() && s[p] == ' ' && s[p + 1] == ' '),
        p + 1 == s.len() ==> false,
    ensures
        double_space(s) == p,
    decreases s.len(),
{
    if s.len() >= 2 && p > 0 {
        assert forall|j: int|
            0 <= j < p - 1 && j + 1 < s.drop_first().len() implies !(#[trigger] s.drop_first()[j] == ' '
            && s.drop_first()[j + 1] == ' ') by {
            assert(s.drop_first()[j] == s[j + 1]);
            assert(s.drop_first()[j + 1] == s[j + 2]);
        }
        lemma_double_space_at(s.drop_first(), p - 1);
    }
}

/// `split_entry`, exactly.
pub fn split_entry_exec(rest: &[char]) -> (r: Option<(Vec<char>, Vec<char>)>)
    ensures
        match r {
            Some((id, name)) => split_entry(rest@) == Some((id@, name@)),
            None => split_entry(rest@) is None,
        },
{
    let n = rest.len();
    let mut p: usize = 0;
    while n >= 2 && p < n - 1 && !(rest[p] == ' ' && rest[p + 1] == ' ')
        invariant
            n == rest@.len(),
            p <= n,
            forall|j: int| 0 <= j < p && j + 1 < n ==> !(#[trigger] rest@[j] == ' ' && rest@[j + 1] == ' '),
        decreases n - p,
    {
        p += 1;
    }
    proof {
        lemma_double_space(rest@);
    }
    if n < 2 || p >= n - 1 {
        proof {
            if double_space(rest@) < n {
                let q = double_space(rest@) as int;
                assert(q + 1 < n);
                assert(!(q < p) || !(rest@[q] == ' ' && rest@[q + 1] == ' '));
            }
        }
        return None;
    }
    proof {
        lemma_double_space_at(rest@, p as int);
    }
    let id = slice_to_vec(rest, 0, p);
    let (a, b) = trim_bounds(rest, p + 2, n, &Class::AsciiWs);
    if id.len() == 0 || a == b {
        return None;
    }
    let name = slice_to_vec(rest, a, b);
    Some((id, name))
}

/// A hex id of one to eight digits.
pub fn hex_id_exec(id: &[char]) -> (r: Option<u32>)
    ensures
        match r {
            Some(v) => hex_id(id@) == Some(v as nat),
            None => hex_id(id@) is None,
        },
{
    if id.len() < 1 || id.len() > 8 {
        return None;
    }
    proof {
        assert(id@.subrange(0, id@.len() as int) =~= id@);
        lemma_hex8_bound(id@);
    }
    match digits_u64(id, 0, id.len(), 16) {
        Some(v) => Some(v as u32),
        None => None,
    }
}

proof fn lemma_hex8_bound(s: Seq<char>)
    requires
        s.len() <= 8,
    ensures
        digits_value(s, 16) < 0x1_0000_0000,
        digits_value(s, 16) < crate::num::pow16(s.len()),
    decreases s.len(),
{
    if s.len() > 0 {
        lemma_hex8_bound(s.drop_last());
        let d = crate::num::digit_val(s.last());
        assert(d < 16);
        assert(digits_value(s, 16) == digits_value(s.drop_last(), 16) * 16 + d);
        assert(crate::num::pow16(s.len()) == crate::num::pow16(s.drop_last().len()) * 16);
        assert(digits_value(s.drop_last(), 16) * 16 + d < crate::num::pow16(s.len())) by (nonlinear_arith)
            requires
                digits_value(s.drop_last(), 16) < crate::num::pow16(s.drop_last().len()),
                d < 16,
                crate::num::pow16(s.len()) == crate::num::pow16(s.drop_last().len()) * 16,
        ;
        crate::num::lemma_pow16_8(s.len());
    } else {
        crate::num::lemma_pow16_8(0);
    }
}

pub fn entry8_exec(rest: &[char]) -> (r: Option<(u8, Vec<char>)>)
    ensures
        match r {
            Some((id, name)) => entry8(rest@) == Some((id, name@)),
            None => entry8(rest@) is None,
        },
{
    match split_entry_exec(rest) {
        Some((id, name)) => match hex_id_exec(id.as_slice()) {
            Some(v) => if v <= 0xff {
                Some((v as u8, name))
            } else {
                None
            },
            None => None,
        },
        None => None,
    }
}

pub fn entry16_exec(rest: &[char]) -> (r: Option<(u16, Vec<char>)>)
    ensures
        match r {
            Some((id, name)) => entry16(rest@) == Some((id, name@)),
            None => entry16(rest@) is None,
        },
{
    match split_entry_exec(rest) {
        Some((id, name)) => match hex_id_exec(id.as_slice()) {
            Some(v) => if v <= 0xffff {
                Some((v as u16, name))
            } else {
                None
            },
            None => None,
        },
        None => None,
    }
}

pub fn sub_ids_exec(id: &[char]) -> (r: Option<(u16, u16)>)
    ensures
        r == sub_ids(id@),
{
    match split_once_at(id, ' ') {
        Some(i) => {
            let n = id.len();
            let a = slice_to_vec(id, 0, i);
            let b = slice_to_vec(id, i + 1, n);
            match (hex_id_exec(a.as_slice()), hex_id_exec(b.as_slice())) {
                (Some(x), Some(y)) => if x <= 0xffff && y <= 0xffff {
                    Some((x as u16, y as u16))
                } else {
                    None
                },
                _ => None,
            }
        },
        None => None,
    }
}

/// `name_of`, computed.
pub fn name_string(c: &[char]) -> (s: String)
    ensures
        s@ == name_of(c@),
{
    let b = unlatin1_of(c);
    lossy(b.as_slice())
}

/// Splits a file into its lines, as `data_lines` says.
pub fn data_lines_of(d: &[u8]) -> (out: Vec<Vec<char>>)
    ensures
        views(out@) == data_lines(d@),
{
    let c = latin1_of(d);
    let pieces = split_char(c.as_slice(), '\n');
    let mut out: Vec<Vec<char>> = Vec::new();
    let mut i: usize = 0;
    while i < pieces.len()
        invariant
            i <= pieces@.len(),
            views(pieces@) == split(latin1(d@), '\n'),
            views(out@) == views(pieces@).subrange(0, i as int).map_values(
                |l: Seq<char>| strip_cr(l),
            ),
        decreases pieces@.len() - i,
    {
        let p = &pieces[i];
        let mut end = p.len();
        if end > 0 && p[end - 1] == '\r' {
            end = end - 1;
        }
        let line = slice_to_vec(p.as_slice(), 0, end);
        proof {
            assert(line@ == strip_cr(p@));
            crate::text::lemma_views_push(out@, line);
            assert(views(pieces@).subrange(0, i + 1).map_values(|l: Seq<char>| strip_cr(l))
                =~= views(pieces@).subrange(0, i as int).map_values(|l: Seq<char>| strip_cr(l)).push(
                strip_cr(p@),
            ));
        }
        out.push(line);
        i += 1;
    }
    proof {
        assert(views(pieces@).subrange(0, pieces@.len() as int) =~= views(pieces@));
    }
    out
}


// ---------------------------------------------------------------- the exec parse

/// The exec side of a `ParseState`: everything but the tables.
#[derive(Clone, Copy)]
pub struct Cursor {
    pub section: Section,
    pub vendor: Option<u16>,
    pub device: Option<u16>,
    pub class: Option<u8>,
    pub subclass: Option<u8>,
}

pub open spec fn at(c: Cursor, ids: IdsView) -> ParseState {
    ParseState {
        section: c.section,
        vendor: c.vendor,
        device: c.device,
        class: c.class,
        subclass: c.subclass,
        ids,
    }
}

fn start_cursor() -> (c: Cursor)
    ensures
        forall|ids: IdsView| at(c, ids) == start_state(ids),
{
    Cursor { section: Section::Vendors, vendor: None, device: None, class: None, subclass: None }
}

impl HwIds {
    pub closed spec fn wf(&self) -> bool {
        &&& self.pci_vendors.wf()
        &&& self.pci_devices.wf()
        &&& self.pci_subsystems.wf()
        &&& self.pci_classes.wf()
        &&& self.pci_subclasses.wf()
        &&& self.pci_progifs.wf()
        &&& self.usb_vendors.wf()
        &&& self.usb_devices.wf()
        &&& self.usb_classes.wf()
        &&& self.usb_subclasses.wf()
        &&& self.usb_protocols.wf()
        &&& self.pnp_vendors.wf()
    }

    /// Nothing loaded.
    pub fn new() -> (ids: Self)
        ensures
            ids.wf(),
            ids@ == empty_ids(),
    {
        HwIds {
            loaded_any: false,
            pci_vendors: Table::new(),
            pci_devices: Table::new(),
            pci_subsystems: Table::new(),
            pci_classes: Table::new(),
            pci_subclasses: Table::new(),
            pci_progifs: Table::new(),
            usb_vendors: Table::new(),
            usb_devices: Table::new(),
            usb_classes: Table::new(),
            usb_subclasses: Table::new(),
            usb_protocols: Table::new(),
            pnp_vendors: StrTable::new(),
        }
    }

    /// A section line (`C 03  Display controller`, `L 0001  Arabic`).
    fn section_line_exec(&mut self, cur: Cursor, line: &[char], usb: bool) -> (next: Cursor)
        requires
            old(self).wf(),
        ensures
            final(self).wf(),
            at(next, final(self)@) == section_line(at(cur, old(self)@), line@, usb),
    {
        let (marker_c, rest) = match split_once_at(line, ' ') {
            Some(i) => {
                let n = line.len();
                let m = i == 1 && line[0] == 'C';
                proof {
                    let mk = line@.subrange(0, i as int);
                    if m {
                        assert(mk =~= seq!['C']);
                    }
                    if mk == seq!['C'] {
                        assert(mk.len() == 1);
                        assert(mk[0] == 'C');
                    }
                }
                (m, slice_to_vec(line, i + 1, n))
            },
            None => {
                let m = line.len() == 1 && line[0] == 'C';
                proof {
                    assert(line@ == seq!['C'] <==> m) by {
                        if m {
                            assert(line@ =~= seq!['C']);
                        }
                    }
                    assert(seq![] =~= Seq::<char>::empty());
                }
                (m, Vec::new())
            },
        };
        let base = Cursor {
            section: if marker_c {
                Section::Classes
            } else {
                Section::Other
            },
            vendor: None,
            device: None,
            class: None,
            subclass: None,
        };
        match entry8_exec(rest.as_slice()) {
            Some((id, name)) => if marker_c {
                let n = name_string(name.as_slice());
                if usb {
                    self.usb_classes.insert(id as u64, n);
                } else {
                    self.pci_classes.insert(id as u64, n);
                }
                Cursor { class: Some(id), ..base }
            } else {
                base
            },
            None => base,
        }
    }

    fn pci_vendor_exec(&mut self, cur: Cursor, rest: &[char], w: &Wanted) -> (next: Cursor)
        requires
            old(self).wf(),
        ensures
            final(self).wf(),
            at(next, final(self)@) == pci_vendor_entry(at(cur, old(self)@), rest@, w@),
    {
        match entry16_exec(rest) {
            Some((id, name)) => {
                if w.pci_vendors.contains(id as u64) {
                    self.pci_vendors.insert(id as u64, name_string(name.as_slice()));
                }
                Cursor { vendor: Some(id), device: None, ..cur }
            },
            None => Cursor { vendor: None, device: None, ..cur },
        }
    }

    fn pci_device_exec(&mut self, cur: Cursor, rest: &[char], w: &Wanted) -> (next: Cursor)
        requires
            old(self).wf(),
        ensures
            final(self).wf(),
            at(next, final(self)@) == pci_device_entry(at(cur, old(self)@), rest@, w@),
    {
        match (cur.vendor, entry16_exec(rest)) {
            (Some(v), Some((id, name))) => {
                let k = k2(v, id);
                if w.pci_devices.contains(k) {
                    self.pci_devices.insert(k, name_string(name.as_slice()));
                }
                Cursor { device: Some(id), ..cur }
            },
            _ => Cursor { device: None, ..cur },
        }
    }

    fn pci_subsystem_exec(&mut self, cur: Cursor, rest: &[char], w: &Wanted)
        requires
            old(self).wf(),
        ensures
            final(self).wf(),
            at(cur, final(self)@) == pci_subsystem_entry(at(cur, old(self)@), rest@, w@),
    {
        match (cur.vendor, cur.device, split_entry_exec(rest)) {
            (Some(v), Some(d), Some((id, name))) => match sub_ids_exec(id.as_slice()) {
                Some((sv, sd)) => {
                    let k = k4(v, d, sv, sd);
                    if w.pci_subsystems.contains(k) {
                        self.pci_subsystems.insert(k, name_string(name.as_slice()));
                    }
                },
                None => {},
            },
            _ => {},
        }
    }

    fn subclass_exec(&mut self, cur: Cursor, rest: &[char], usb: bool) -> (next: Cursor)
        requires
            old(self).wf(),
        ensures
            final(self).wf(),
            at(next, final(self)@) == subclass_entry(at(cur, old(self)@), rest@, usb),
    {
        match (cur.class, entry8_exec(rest)) {
            (Some(c), Some((id, name))) => {
                let n = name_string(name.as_slice());
                if usb {
                    self.usb_subclasses.insert(k2b(c, id), n);
                } else {
                    self.pci_subclasses.insert(k2b(c, id), n);
                }
                Cursor { subclass: Some(id), ..cur }
            },
            _ => Cursor { subclass: None, ..cur },
        }
    }

    fn progif_exec(&mut self, cur: Cursor, rest: &[char], usb: bool)
        requires
            old(self).wf(),
        ensures
            final(self).wf(),
            at(cur, final(self)@) == progif_entry(at(cur, old(self)@), rest@, usb),
    {
        match (cur.class, cur.subclass, entry8_exec(rest)) {
            (Some(c), Some(s), Some((id, name))) => {
                let n = name_string(name.as_slice());
                if usb {
                    self.usb_protocols.insert(k3b(c, s, id), n);
                } else {
                    self.pci_progifs.insert(k3b(c, s, id), n);
                }
            },
            _ => {},
        }
    }

    fn usb_vendor_exec(&mut self, cur: Cursor, rest: &[char], w: &Wanted) -> (next: Cursor)
        requires
            old(self).wf(),
        ensures
            final(self).wf(),
            at(next, final(self)@) == usb_vendor_entry(at(cur, old(self)@), rest@, w@),
    {
        match entry16_exec(rest) {
            Some((id, name)) => {
                if w.usb_vendors.contains(id as u64) {
                    self.usb_vendors.insert(id as u64, name_string(name.as_slice()));
                }
                Cursor { vendor: Some(id), ..cur }
            },
            None => Cursor { vendor: None, ..cur },
        }
    }

    fn usb_device_exec(&mut self, cur: Cursor, rest: &[char], w: &Wanted)
        requires
            old(self).wf(),
        ensures
            final(self).wf(),
            at(cur, final(self)@) == usb_device_entry(at(cur, old(self)@), rest@, w@),
    {
        match (cur.vendor, entry16_exec(rest)) {
            (Some(v), Some((id, name))) => {
                let k = k2(v, id);
                if w.usb_devices.contains(k) {
                    self.usb_devices.insert(k, name_string(name.as_slice()));
                }
            },
            _ => {},
        }
    }

    /// One line of `pci.ids`.
    fn pci_line(&mut self, cur: Cursor, line: &[char], w: &Wanted) -> (next: Cursor)
        requires
            old(self).wf(),
        ensures
            final(self).wf(),
            at(next, final(self)@) == pci_step(at(cur, old(self)@), line@, w@),
    {
        let n = line.len();
        if n == 0 || line[0] == '#' {
            return cur;
        }
        if 'A' <= line[0] && line[0] <= 'Z' {
            return self.section_line_exec(cur, line, false);
        }
        let depth = skip_in(line, 0, &Class::Is('\t'));
        proof {
            assert(line@.subrange(0, n as int) =~= line@);
        }
        let rest = slice_to_vec(line, depth, n);
        match cur.section {
            Section::Vendors => if depth == 0 {
                self.pci_vendor_exec(cur, rest.as_slice(), w)
            } else if depth == 1 {
                self.pci_device_exec(cur, rest.as_slice(), w)
            } else if depth == 2 {
                self.pci_subsystem_exec(cur, rest.as_slice(), w);
                cur
            } else {
                cur
            },
            Section::Classes => if depth == 1 {
                self.subclass_exec(cur, rest.as_slice(), false)
            } else if depth == 2 {
                self.progif_exec(cur, rest.as_slice(), false);
                cur
            } else {
                cur
            },
            Section::Other => cur,
        }
    }

    /// One line of `usb.ids`.
    fn usb_line(&mut self, cur: Cursor, line: &[char], w: &Wanted) -> (next: Cursor)
        requires
            old(self).wf(),
        ensures
            final(self).wf(),
            at(next, final(self)@) == usb_step(at(cur, old(self)@), line@, w@),
    {
        let n = line.len();
        if n == 0 || line[0] == '#' {
            return cur;
        }
        if 'A' <= line[0] && line[0] <= 'Z' {
            return self.section_line_exec(cur, line, true);
        }
        let depth = skip_in(line, 0, &Class::Is('\t'));
        proof {
            assert(line@.subrange(0, n as int) =~= line@);
        }
        let rest = slice_to_vec(line, depth, n);
        match cur.section {
            Section::Vendors => if depth == 0 {
                self.usb_vendor_exec(cur, rest.as_slice(), w)
            } else if depth == 1 {
                self.usb_device_exec(cur, rest.as_slice(), w);
                cur
            } else {
                cur
            },
            Section::Classes => if depth == 1 {
                self.subclass_exec(cur, rest.as_slice(), true)
            } else if depth == 2 {
                self.progif_exec(cur, rest.as_slice(), true);
                cur
            } else {
                cur
            },
            Section::Other => cur,
        }
    }
}


// ---------------------------------------------------------------- class names

/// The lower-cased words of a name: its runs of alphanumeric characters.
pub open spec fn words(t: Seq<char>) -> Seq<Seq<char>> {
    fields(t, Class::NotAlnum).map_values(|w: Seq<char>| lowercase(w))
}

/// Placeholder names the class tables use for "nothing special here".
pub open spec fn filler() -> Seq<Seq<char>> {
    seq![
        "no subclass"@,
        "unused"@,
        "undefined"@,
        "unspecified"@,
        "none"@,
        "reserved"@,
        "generic"@,
        "other"@,
        "vendor specific"@,
        "vendor specific subclass"@,
        "vendor specific protocol"@,
    ]
}

pub open spec fn is_filler(name: Seq<char>) -> bool {
    filler().contains(ascii_lower(trim_ws(name)))
}

/// Every word of `ws` is in `seen`.
pub open spec fn all_seen(ws: Seq<Seq<char>>, seen: Seq<Seq<char>>) -> bool {
    forall|i: int| 0 <= i < ws.len() ==> seen.contains(#[trigger] ws[i])
}

/// `out` with each of `extras` appended after `" - "`, unless it is filler or every
/// one of its words has been seen already.
pub open spec fn compose_rest(extras: Seq<Seq<char>>, seen: Seq<Seq<char>>, out: Seq<char>) -> Seq<char>
    decreases extras.len(),
{
    if extras.len() == 0 {
        out
    } else {
        let e = extras[0];
        let ew = words(e);
        if is_filler(e) || ew.len() == 0 || all_seen(ew, seen) {
            compose_rest(extras.drop_first(), seen, out)
        } else {
            compose_rest(extras.drop_first(), seen + ew, out + " - "@ + e)
        }
    }
}

/// Class names joined from general to specific; `None` when there is none.
pub open spec fn compose(parts: Seq<Seq<char>>) -> Option<Seq<char>> {
    if parts.len() == 0 {
        None
    } else {
        Some(compose_rest(parts.drop_first(), words(parts[0]), parts[0]))
    }
}

pub open spec fn opt_seq(o: Option<Seq<char>>) -> Seq<Seq<char>> {
    match o {
        Some(x) => seq![x],
        None => seq![],
    }
}

/// PCI: the subclass name leads (pci.ids writes it self-contained), the base class
/// stands in when the subclass is unknown, and the prog-if is detail.
pub open spec fn pci_class_parts(ids: IdsView, base: u8, sub: u8, progif: u8) -> Seq<Seq<char>> {
    opt_seq(or_else(ids.pci_subclasses.get(key2b(base, sub)), ids.pci_classes.get(base as u64)))
        + opt_seq(ids.pci_progifs.get(key3b(base, sub, progif)))
}

/// USB: the base class leads and the subclass and protocol are detail.
pub open spec fn usb_class_parts(ids: IdsView, base: u8, sub: u8, protocol: u8) -> Seq<Seq<char>> {
    opt_seq(ids.usb_classes.get(base as u64)) + opt_seq(ids.usb_subclasses.get(key2b(base, sub)))
        + opt_seq(ids.usb_protocols.get(key3b(base, sub, protocol)))
}

pub open spec fn str_opt(o: Option<&str>) -> Option<Seq<char>> {
    match o {
        Some(s) => Some(s@),
        None => None,
    }
}

pub open spec fn string_opt(o: Option<String>) -> Option<Seq<char>> {
    match o {
        Some(s) => Some(s@),
        None => None,
    }
}

/// `words`, computed.
pub fn words_of(t: &[char]) -> (out: Vec<Vec<char>>)
    ensures
        views(out@) == words(t@),
{
    let pieces = fields_of(t, &Class::NotAlnum);
    let ghost fs = views(pieces@);
    let mut out: Vec<Vec<char>> = Vec::new();
    let mut i: usize = 0;
    while i < pieces.len()
        invariant
            i <= pieces@.len(),
            fs == views(pieces@),
            fs == fields(t@, Class::NotAlnum),
            views(out@) == fs.subrange(0, i as int).map_values(|w: Seq<char>| lowercase(w)),
        decreases pieces@.len() - i,
    {
        let st = string_of(pieces[i].as_slice());
        let low = str_to_lowercase(st.as_str());
        let lc = chars_of(low.as_str());
        proof {
            crate::text::lemma_views_push(out@, lc);
            assert(fs.subrange(0, i + 1).map_values(|w: Seq<char>| lowercase(w)) =~= fs.subrange(
                0,
                i as int,
            ).map_values(|w: Seq<char>| lowercase(w)).push(lowercase(fs[i as int])));
        }
        out.push(lc);
        i += 1;
    }
    proof {
        assert(fs.subrange(0, pieces@.len() as int) =~= fs);
    }
    out
}

/// Whether `w` is one of `seen`.
fn seen_has(seen: &Vec<Vec<char>>, w: &[char]) -> (r: bool)
    ensures
        r == views(seen@).contains(w@),
{
    let mut i: usize = 0;
    while i < seen.len()
        invariant
            i <= seen@.len(),
            forall|j: int| 0 <= j < i ==> seen@[j]@ != w@,
        decreases seen@.len() - i,
    {
        if chars_eq(seen[i].as_slice(), w) {
            proof {
                assert(views(seen@)[i as int] == w@);
            }
            return true;
        }
        i += 1;
    }
    proof {
        if views(seen@).contains(w@) {
            let j = choose|j: int| 0 <= j < views(seen@).len() && views(seen@)[j] == w@;
            assert(seen@[j]@ == w@);
        }
    }
    false
}

fn all_seen_exec(ws: &Vec<Vec<char>>, seen: &Vec<Vec<char>>) -> (r: bool)
    ensures
        r == all_seen(views(ws@), views(seen@)),
{
    let mut i: usize = 0;
    while i < ws.len()
        invariant
            i <= ws@.len(),
            forall|j: int| 0 <= j < i ==> views(seen@).contains(#[trigger] views(ws@)[j]),
        decreases ws@.len() - i,
    {
        if !seen_has(seen, ws[i].as_slice()) {
            proof {
                assert(!views(seen@).contains(views(ws@)[i as int]));
            }
            return false;
        }
        i += 1;
    }
    true
}

/// `is_filler`, computed.
pub fn is_filler_exec(name: &[char]) -> (r: bool)
    ensures
        r == is_filler(name@),
{
    let t = trimmed(name, &Class::Ws);
    let low = to_ascii_lower(t.as_slice());
    let list: [&str; 11] = [
        "no subclass",
        "unused",
        "undefined",
        "unspecified",
        "none",
        "reserved",
        "generic",
        "other",
        "vendor specific",
        "vendor specific subclass",
        "vendor specific protocol",
    ];
    let r = crate::hardware::util::in_list(low.as_slice(), &list);
    proof {
        assert(list@.map_values(|x: &str| x@) =~= filler());
    }
    r
}

/// `compose`, computed.
pub fn compose_exec(parts: &Vec<Vec<char>>) -> (r: Option<String>)
    ensures
        string_opt(r) == compose(views(parts@)),
{
    if parts.len() == 0 {
        return None;
    }
    let ghost ps = views(parts@);
    let mut seen = words_of(parts[0].as_slice());
    let mut out: Vec<char> = slice_to_vec(parts[0].as_slice(), 0, parts[0].len());
    let mut i: usize = 1;
    proof {
        assert(parts[0]@.subrange(0, parts[0]@.len() as int) =~= parts[0]@);
        assert(ps.subrange(1, ps.len() as int) =~= ps.drop_first());
    }
    while i < parts.len()
        invariant
            1 <= i <= parts@.len(),
            ps == views(parts@),
            compose_rest(ps.subrange(i as int, ps.len() as int), views(seen@), out@)
                == compose_rest(ps.drop_first(), words(ps[0]), ps[0]),
        decreases parts@.len() - i,
    {
        let ghost rest = ps.subrange(i as int, ps.len() as int);
        proof {
            assert(rest.drop_first() =~= ps.subrange(i + 1, ps.len() as int));
            assert(rest[0] == parts@[i as int]@);
        }
        let e = parts[i].as_slice();
        if is_filler_exec(e) {
        } else {
            let ew = words_of(e);
            if ew.len() == 0 || all_seen_exec(&ew, &seen) {
            } else {
                let ghost old_seen = views(seen@);
                let ghost old_out = out@;
                let mut j: usize = 0;
                while j < ew.len()
                    invariant
                        j <= ew@.len(),
                        views(seen@) == old_seen + views(ew@).subrange(0, j as int),
                    decreases ew@.len() - j,
                {
                    let wj = slice_to_vec(ew[j].as_slice(), 0, ew[j].len());
                    proof {
                        assert(ew@[j as int]@.subrange(0, ew@[j as int]@.len() as int) =~= ew@[j as int]@);
                        crate::text::lemma_views_push(seen@, wj);
                        assert(old_seen + views(ew@).subrange(0, j + 1) =~= (old_seen + views(
                            ew@,
                        ).subrange(0, j as int)).push(wj@));
                    }
                    seen.push(wj);
                    j += 1;
                }
                proof {
                    assert(views(ew@).subrange(0, ew@.len() as int) =~= views(ew@));
                }
                out.push(' ');
                out.push('-');
                out.push(' ');
                proof {
                    reveal_strlit(" - ");
                    assert(out@ =~= old_out + " - "@ + e@.subrange(0, 0));
                }
                let mut k: usize = 0;
                while k < e.len()
                    invariant
                        k <= e@.len(),
                        out@ == old_out + " - "@ + e@.subrange(0, k as int),
                    decreases e@.len() - k,
                {
                    proof {
                        assert(old_out + " - "@ + e@.subrange(0, k + 1) =~= (old_out + " - "@
                            + e@.subrange(0, k as int)).push(e@[k as int]));
                    }
                    out.push(e[k]);
                    k += 1;
                }
                proof {
                    assert(e@.subrange(0, e@.len() as int) =~= e@);
                }
            }
        }
        i += 1;
    }
    proof {
        assert(ps.subrange(parts@.len() as int, ps.len() as int) =~= Seq::<Seq<char>>::empty());
    }
    Some(string_of(out.as_slice()))
}


// ---------------------------------------------------------------- loading and lookups

pub open spec fn opt_bytes(o: Option<&[u8]>) -> Option<Seq<u8>> {
    match o {
        Some(d) => Some(d@),
        None => None,
    }
}

/// What the three hwdata files, where they could be read, give for the `wanted` ids.
pub open spec fn load_spec(
    pci: Option<Seq<u8>>,
    usb: Option<Seq<u8>>,
    pnp: Option<Seq<u8>>,
    w: WantedView,
) -> IdsView {
    let a = match pci {
        Some(d) => IdsView {
            loaded_any: true,
            ..pci_run(data_lines(d), start_state(empty_ids()), w).ids
        },
        None => empty_ids(),
    };
    let b = match usb {
        Some(d) => IdsView { loaded_any: true, ..usb_run(data_lines(d), start_state(a), w).ids },
        None => a,
    };
    match pnp {
        Some(d) => IdsView {
            loaded_any: true,
            pnp_vendors: pnp_run(data_lines(d), b.pnp_vendors),
            ..b
        },
        None => b,
    }
}

/// The tables whose sizes can be asked for.
pub enum IdTable {
    PciVendors,
    PciDevices,
    PciSubsystems,
    PciClasses,
    PciSubclasses,
    PciProgifs,
    UsbVendors,
    UsbDevices,
    UsbClasses,
    UsbSubclasses,
    UsbProtocols,
}

pub open spec fn table_of(ids: IdsView, t: IdTable) -> Map<u64, Seq<char>> {
    match t {
        IdTable::PciVendors => ids.pci_vendors,
        IdTable::PciDevices => ids.pci_devices,
        IdTable::PciSubsystems => ids.pci_subsystems,
        IdTable::PciClasses => ids.pci_classes,
        IdTable::PciSubclasses => ids.pci_subclasses,
        IdTable::PciProgifs => ids.pci_progifs,
        IdTable::UsbVendors => ids.usb_vendors,
        IdTable::UsbDevices => ids.usb_devices,
        IdTable::UsbClasses => ids.usb_classes,
        IdTable::UsbSubclasses => ids.usb_subclasses,
        IdTable::UsbProtocols => ids.usb_protocols,
    }
}

/// One `pnp.ids` line, computed.
fn pnp_line_exec(line: &[char]) -> (r: Option<(String, String)>)
    ensures
        match r {
            Some((c, n)) => pnp_line(line@) == Some((c@, n@)),
            None => pnp_line(line@) is None,
        },
{
    if line.len() == 0 || line[0] == '#' {
        return None;
    }
    let text = name_string(line);
    let t = chars_of(text.as_str());
    match split_once_at(t.as_slice(), '\t') {
        Some(i) => {
            let n = t.len();
            let (a, b) = trim_bounds(t.as_slice(), 0, i, &Class::Ws);
            let (c, d) = trim_bounds(t.as_slice(), i + 1, n, &Class::Ws);
            if a == b || c == d {
                return None;
            }
            let code = slice_to_vec(t.as_slice(), a, b);
            let up = to_ascii_upper(code.as_slice());
            let name = slice_to_vec(t.as_slice(), c, d);
            Some((string_of(up.as_slice()), string_of(name.as_slice())))
        },
        None => None,
    }
}

impl HwIds {
    /// Reads `pci.ids`, keeping the names of the wanted vendors, devices and subsystems
    /// and every class name.
    pub fn parse_pci(&mut self, data: &[u8], wanted: &Wanted)
        requires
            old(self).wf(),
        ensures
            final(self).wf(),
            final(self)@ == pci_run(data_lines(data@), start_state(old(self)@), wanted@).ids,
    {
        let ls = data_lines_of(data);
        let ghost all = views(ls@);
        let mut cur = start_cursor();
        let mut i: usize = 0;
        proof {
            assert(all.subrange(0, all.len() as int) =~= all);
        }
        while i < ls.len()
            invariant
                self.wf(),
                i <= ls@.len(),
                all == views(ls@),
                all == data_lines(data@),
                pci_run(all.subrange(i as int, all.len() as int), at(cur, self@), wanted@)
                    == pci_run(all, start_state(old(self)@), wanted@),
            decreases ls@.len() - i,
        {
            proof {
                let t = all.subrange(i as int, all.len() as int);
                assert(t.drop_first() =~= all.subrange(i + 1, all.len() as int));
                assert(t[0] == ls@[i as int]@);
            }
            cur = self.pci_line(cur, ls[i].as_slice(), wanted);
            i += 1;
        }
        proof {
            assert(all.subrange(all.len() as int, all.len() as int).len() == 0);
            assert(all.subrange(0, all.len() as int) =~= all);
        }
    }

    /// Reads `usb.ids`. Of its many top-level sections only `C` is read; every other one
    /// (`AT`, `HID`, `L`, ...) is skipped wholesale, so a language code never passes
    /// for a vendor.
    pub fn parse_usb(&mut self, data: &[u8], wanted: &Wanted)
        requires
            old(self).wf(),
        ensures
            final(self).wf(),
            final(self)@ == usb_run(data_lines(data@), start_state(old(self)@), wanted@).ids,
    {
        let ls = data_lines_of(data);
        let ghost all = views(ls@);
        let mut cur = start_cursor();
        let mut i: usize = 0;
        proof {
            assert(all.subrange(0, all.len() as int) =~= all);
        }
        while i < ls.len()
            invariant
                self.wf(),
                i <= ls@.len(),
                all == views(ls@),
                all == data_lines(data@),
                usb_run(all.subrange(i as int, all.len() as int), at(cur, self@), wanted@)
                    == usb_run(all, start_state(old(self)@), wanted@),
            decreases ls@.len() - i,
        {
            proof {
                let t = all.subrange(i as int, all.len() as int);
                assert(t.drop_first() =~= all.subrange(i + 1, all.len() as int));
                assert(t[0] == ls@[i as int]@);
            }
            cur = self.usb_line(cur, ls[i].as_slice(), wanted);
            i += 1;
        }
        proof {
            assert(all.subrange(all.len() as int, all.len() as int).len() == 0);
            assert(all.subrange(0, all.len() as int) =~= all);
        }
    }

    /// Reads `pnp.ids`: flat, tab separated, `SAM\tSamsung Electric Company`. Codes are
    /// stored upper-cased, as EDID writes them.
    pub fn parse_pnp(&mut self, data: &[u8])
        requires
            old(self).wf(),
        ensures
            final(self).wf(),
            final(self)@ == (IdsView {
                pnp_vendors: pnp_run(data_lines(data@), old(self)@.pnp_vendors),
                ..old(self)@
            }),
    {
        let ls = data_lines_of(data);
        let ghost all = views(ls@);
        let mut i: usize = 0;
        proof {
            assert(all.subrange(0, all.len() as int) =~= all);
        }
        while i < ls.len()
            invariant
                self.wf(),
                i <= ls@.len(),
                all == views(ls@),
                all == data_lines(data@),
                self@ == (IdsView { pnp_vendors: self@.pnp_vendors, ..old(self)@ }),
                pnp_run(all.subrange(i as int, all.len() as int), self@.pnp_vendors)
                    == pnp_run(all, old(self)@.pnp_vendors),
            decreases ls@.len() - i,
        {
            proof {
                let t = all.subrange(i as int, all.len() as int);
                assert(t.drop_first() =~= all.subrange(i + 1, all.len() as int));
                assert(t[0] == ls@[i as int]@);
            }
            match pnp_line_exec(ls[i].as_slice()) {
                Some((code, name)) => {
                    self.pnp_vendors.insert(code, name);
                },
                None => {},
            }
            i += 1;
        }
        proof {
            assert(all.subrange(all.len() as int, all.len() as int).len() == 0);
            assert(all.subrange(0, all.len() as int) =~= all);
        }
    }

    /// Builds the tables out of whichever hwdata files could be read (`None` for a file
    /// that could not), resolving only the `wanted` ids.
    pub fn load(pci: Option<&[u8]>, usb: Option<&[u8]>, pnp: Option<&[u8]>, wanted: &Wanted) -> (ids: Self)
        ensures
            ids.wf(),
            ids@ == load_spec(opt_bytes(pci), opt_bytes(usb), opt_bytes(pnp), wanted@),
    {
        let mut ids = HwIds::new();
        match pci {
            Some(data) => {
                ids.parse_pci(data, wanted);
                ids.loaded_any = true;
            },
            None => {},
        }
        match usb {
            Some(data) => {
                ids.parse_usb(data, wanted);
                ids.loaded_any = true;
            },
            None => {},
        }
        match pnp {
            Some(data) => {
                ids.parse_pnp(data);
                ids.loaded_any = true;
            },
            None => {},
        }
        ids
    }

    /// False when no hwdata file could be read at all, so the UI can say device names
    /// are unavailable and only raw ids are shown.
    pub fn available(&self) -> (b: bool)
        ensures
            b == self@.loaded_any,
    {
        self.loaded_any
    }

    pub fn pci_vendor(&self, vendor: u16) -> (r: Option<&str>)
        requires
            self.wf(),
        ensures
            str_opt(r) == self@.pci_vendors.get(vendor as u64),
    {
        match self.pci_vendors.get(vendor as u64) {
            Some(s) => Some(s.as_str()),
            None => None,
        }
    }

    pub fn pci_device(&self, vendor: u16, device: u16) -> (r: Option<&str>)
        requires
            self.wf(),
        ensures
            str_opt(r) == self@.pci_devices.get(key2(vendor, device)),
    {
        match self.pci_devices.get(k2(vendor, device)) {
            Some(s) => Some(s.as_str()),
            None => None,
        }
    }

    pub fn pci_subsystem(&self, vendor: u16, device: u16, sub_vendor: u16, sub_device: u16) -> (r:
        Option<&str>)
        requires
            self.wf(),
        ensures
            str_opt(r) == self@.pci_subsystems.get(key4(vendor, device, sub_vendor, sub_device)),
    {
        match self.pci_subsystems.get(k4(vendor, device, sub_vendor, sub_device)) {
            Some(s) => Some(s.as_str()),
            None => None,
        }
    }

    pub fn usb_vendor(&self, vendor: u16) -> (r: Option<&str>)
        requires
            self.wf(),
        ensures
            str_opt(r) == self@.usb_vendors.get(vendor as u64),
    {
        match self.usb_vendors.get(vendor as u64) {
            Some(s) => Some(s.as_str()),
            None => None,
        }
    }

    pub fn usb_device(&self, vendor: u16, device: u16) -> (r: Option<&str>)
        requires
            self.wf(),
        ensures
            str_opt(r) == self@.usb_devices.get(key2(vendor, device)),
    {
        match self.usb_devices.get(k2(vendor, device)) {
            Some(s) => Some(s.as_str()),
            None => None,
        }
    }

    /// EDID three-letter manufacturer code, e.g. `"SAM"` -> `"Samsung Electric Company"`,
    /// looked up trimmed and upper-cased.
    pub fn pnp_vendor(&self, code: &str) -> (r: Option<&str>)
        requires
            self.wf(),
        ensures
            str_opt(r) == self@.pnp_vendors.get(ascii_upper(trim_ws(code@))),
    {
        let c = chars_of(code);
        let t = trimmed(c.as_slice(), &Class::Ws);
        let up = to_ascii_upper(t.as_slice());
        match self.pnp_vendors.get(up.as_slice()) {
            Some(s) => Some(s.as_str()),
            None => None,
        }
    }

    /// Degrades: exact (base, sub, progif) -> (base, sub) -> (base).
    ///
    /// The subclass name is the useful label here - pci.ids writes it self-contained
    /// ("SATA controller", "VGA compatible controller") - so it leads and the base class
    /// is only the fallback.
    pub fn pci_class(&self, base: u8, sub: u8, progif: u8) -> (r: Option<String>)
        requires
            self.wf(),
        ensures
            string_opt(r) == compose(pci_class_parts(self@, base, sub, progif)),
    {
        let mut parts: Vec<Vec<char>> = Vec::new();
        let ghost lead_name = or_else(
            self@.pci_subclasses.get(key2b(base, sub)),
            self@.pci_classes.get(base as u64),
        );
        match self.pci_subclasses.get(k2b(base, sub)) {
            Some(s) => {
                parts.push(chars_of(s.as_str()));
            },
            None => match self.pci_classes.get(base as u64) {
                Some(s) => {
                    parts.push(chars_of(s.as_str()));
                },
                None => {},
            },
        }
        proof {
            assert(views(parts@) =~= opt_seq(lead_name));
        }
        let ghost first = views(parts@);
        match self.pci_progifs.get(k3b(base, sub, progif)) {
            Some(s) => {
                let c = chars_of(s.as_str());
                proof {
                    crate::text::lemma_views_push(parts@, c);
                }
                parts.push(c);
            },
            None => {},
        }
        proof {
            assert(views(parts@) =~= first + opt_seq(self@.pci_progifs.get(key3b(base, sub, progif))));
        }
        compose_exec(&parts)
    }

    /// Degrades the same way. Used for USB device and interface classes.
    ///
    /// Unlike PCI, usb.ids subclass names are not self-contained ("Boot Interface
    /// Subclass", "SCSI"), so here the base class leads and the deeper names are
    /// appended as detail.
    pub fn usb_class(&self, base: u8, sub: u8, protocol: u8) -> (r: Option<String>)
        requires
            self.wf(),
        ensures
            string_opt(r) == compose(usb_class_parts(self@, base, sub, protocol)),
    {
        let mut parts: Vec<Vec<char>> = Vec::new();
        match self.usb_classes.get(base as u64) {
            Some(s) => {
                parts.push(chars_of(s.as_str()));
            },
            None => {},
        }
        proof {
            assert(views(parts@) =~= opt_seq(self@.usb_classes.get(base as u64)));
        }
        let ghost p1 = views(parts@);
        match self.usb_subclasses.get(k2b(base, sub)) {
            Some(s) => {
                let c = chars_of(s.as_str());
                proof {
                    crate::text::lemma_views_push(parts@, c);
                }
                parts.push(c);
            },
            None => {},
        }
        proof {
            assert(views(parts@) =~= p1 + opt_seq(self@.usb_subclasses.get(key2b(base, sub))));
        }
        let ghost p2 = views(parts@);
        match self.usb_protocols.get(k3b(base, sub, protocol)) {
            Some(s) => {
                let c = chars_of(s.as_str());
                proof {
                    crate::text::lemma_views_push(parts@, c);
                }
                parts.push(c);
            },
            None => {},
        }
        proof {
            assert(views(parts@) =~= p2 + opt_seq(self@.usb_protocols.get(key3b(base, sub, protocol))));
        }
        compose_exec(&parts)
    }

    /// Number of entries in one of the tables.
    pub fn len_of(&self, t: IdTable) -> (n: usize)
        requires
            self.wf(),
        ensures
            n == table_of(self@, t).dom().len(),
    {
        match t {
            IdTable::PciVendors => self.pci_vendors.len(),
            IdTable::PciDevices => self.pci_devices.len(),
            IdTable::PciSubsystems => self.pci_subsystems.len(),
            IdTable::PciClasses => self.pci_classes.len(),
            IdTable::PciSubclasses => self.pci_subclasses.len(),
            IdTable::PciProgifs => self.pci_progifs.len(),
            IdTable::UsbVendors => self.usb_vendors.len(),
            IdTable::UsbDevices => self.usb_devices.len(),
            IdTable::UsbClasses => self.usb_classes.len(),
            IdTable::UsbSubclasses => self.usb_subclasses.len(),
            IdTable::UsbProtocols => self.usb_protocols.len(),
        }
    }
}

impl Default for HwIds {
    fn default() -> (ids: Self)
        ensures
            ids.wf(),
            ids@ == empty_ids(),
    {
        HwIds::new()
    }
}

impl Default for Wanted {
    fn default() -> (w: Self)
        ensures
            w.pci_vendors@ == Set::<u64>::empty(),
            w.pci_devices@ == Set::<u64>::empty(),
            w.pci_subsystems@ == Set::<u64>::empty(),
            w.usb_vendors@ == Set::<u64>::empty(),
            w.usb_devices@ == Set::<u64>::empty(),
    {
        Wanted::new()
    }
}


// ---------------------------------------------------------------- laws

/// No vendor, device or subsystem name appears in `after` unless it was in `before`
/// or its id was wanted.
pub open spec fn only_wanted_added(before: IdsView, after: IdsView, w: WantedView) -> bool {
    &&& forall|k: u64| #[trigger] after.pci_vendors.contains_key(k) ==> before.pci_vendors.contains_key(k) || w.pci_vendors.contains(k)
    &&& forall|k: u64| #[trigger] after.pci_devices.contains_key(k) ==> before.pci_devices.contains_key(k) || w.pci_devices.contains(k)
    &&& forall|k: u64| #[trigger] after.pci_subsystems.contains_key(k) ==> before.pci_subsystems.contains_key(k) || w.pci_subsystems.contains(k)
    &&& forall|k: u64| #[trigger] after.usb_vendors.contains_key(k) ==> before.usb_vendors.contains_key(k) || w.usb_vendors.contains(k)
    &&& forall|k: u64| #[trigger] after.usb_devices.contains_key(k) ==> before.usb_devices.contains_key(k) || w.usb_devices.contains(k)
}

proof fn lemma_pci_step_only_wanted(st: ParseState, line: Seq<char>, w: WantedView)
    ensures
        only_wanted_added(st.ids, pci_step(st, line, w).ids, w),
{
}

proof fn lemma_usb_step_only_wanted(st: ParseState, line: Seq<char>, w: WantedView)
    ensures
        only_wanted_added(st.ids, usb_step(st, line, w).ids, w),
{
}

/// Reading `pci.ids` allocates a vendor, device or subsystem name only for an id in
/// the wanted set: everything else in the file is passed over.
pub proof fn lemma_pci_only_wanted(ls: Seq<Seq<char>>, st: ParseState, w: WantedView)
    ensures
        only_wanted_added(st.ids, pci_run(ls, st, w).ids, w),
    decreases ls.len(),
{
    if ls.len() > 0 {
        let next = pci_step(st, ls[0], w);
        lemma_pci_step_only_wanted(st, ls[0], w);
        lemma_pci_only_wanted(ls.drop_first(), next, w);
    }
}

/// Reading `usb.ids` allocates a vendor or device name only for an id in the wanted
/// set.
pub proof fn lemma_usb_only_wanted(ls: Seq<Seq<char>>, st: ParseState, w: WantedView)
    ensures
        only_wanted_added(st.ids, usb_run(ls, st, w).ids, w),
    decreases ls.len(),
{
    if ls.len() > 0 {
        let next = usb_step(st, ls[0], w);
        lemma_usb_step_only_wanted(st, ls[0], w);
        lemma_usb_only_wanted(ls.drop_first(), next, w);
    }
}

proof fn lemma_pnp_line_upper(line: Seq<char>)
    ensures
        pnp_line(line) matches Some((c, n)) ==> ascii_upper(c) == c,
{
    if line.len() > 0 && line[0] != '#' {
        match split_once(name_of(line), '\t') {
            Some((code, name)) => {
                crate::text::lemma_ascii_upper_idempotent(trim_ws(code));
            },
            None => {},
        }
    }
}

/// Every manufacturer code stored out of `pnp.ids` is upper case, so a lookup, which
/// upper-cases its argument, finds a code whatever case it is asked in.
pub proof fn lemma_pnp_codes_upper(ls: Seq<Seq<char>>, m: Map<Seq<char>, Seq<char>>)
    requires
        forall|k: Seq<char>| #[trigger] m.contains_key(k) ==> ascii_upper(k) == k,
    ensures
        forall|k: Seq<char>| #[trigger] pnp_run(ls, m).contains_key(k) ==> ascii_upper(k) == k,
    decreases ls.len(),
{
    if ls.len() > 0 {
        lemma_pnp_line_upper(ls[0]);
        let next = match pnp_line(ls[0]) {
            Some((c, n)) => m.insert(c, n),
            None => m,
        };
        assert forall|k: Seq<char>| #[trigger] next.contains_key(k) implies ascii_upper(k) == k by {
            if m.contains_key(k) {
            }
        }
        lemma_pnp_codes_upper(ls.drop_first(), next);
        assert(pnp_run(ls, m) == pnp_run(ls.drop_first(), next));
    }
}

// ---------------------------------------------------------------- placeholder names

/// The names the class tables use for "nothing special here", as they read once
/// trimmed and lower-cased: `No Subclass`, `Unused`, `Undefined`, `Unspecified`, `None`,
/// `Reserved`, `Generic`, `Other`, `Vendor Specific`, `Vendor Specific Subclass` and
/// `Vendor Specific Protocol`.
pub open spec fn class_placeholder(name: Seq<char>) -> bool {
    let l = ascii_lower(trim_ws(name));
    ||| l == "no subclass"@
    ||| l == "unused"@
    ||| l == "undefined"@
    ||| l == "unspecified"@
    ||| l == "none"@
    ||| l == "reserved"@
    ||| l == "generic"@
    ||| l == "other"@
    ||| l == "vendor specific"@
    ||| l == "vendor specific subclass"@
    ||| l == "vendor specific protocol"@
}

/// A detail name that is absent or a placeholder.
pub open spec fn no_detail(name: Option<Seq<char>>) -> bool {
    match name {
        Some(n) => class_placeholder(n),
        None => true,
    }
}

proof fn lemma_placeholder_is_filler(name: Seq<char>)
    requires
        class_placeholder(name),
    ensures
        is_filler(name),
{
    let l = ascii_lower(trim_ws(name));
    let f = filler();
    if l == "no subclass"@ { assert(f[0] == l); }
    else if l == "unused"@ { assert(f[1] == l); }
    else if l == "undefined"@ { assert(f[2] == l); }
    else if l == "unspecified"@ { assert(f[3] == l); }
    else if l == "none"@ { assert(f[4] == l); }
    else if l == "reserved"@ { assert(f[5] == l); }
    else if l == "generic"@ { assert(f[6] == l); }
    else if l == "other"@ { assert(f[7] == l); }
    else if l == "vendor specific"@ { assert(f[8] == l); }
    else if l == "vendor specific subclass"@ { assert(f[9] == l); }
    else { assert(f[10] == l); }
}

proof fn lemma_compose_skips_placeholders(extras: Seq<Seq<char>>, seen: Seq<Seq<char>>, out: Seq<char>)
    requires
        forall|i: int| 0 <= i < extras.len() ==> class_placeholder(#[trigger] extras[i]),
    ensures
        compose_rest(extras, seen, out) == out,
    decreases extras.len(),
{
    if extras.len() > 0 {
        lemma_placeholder_is_filler(extras[0]);
        assert forall|i: int| 0 <= i < extras.drop_first().len() implies class_placeholder(
            #[trigger] extras.drop_first()[i],
        ) by {
            assert(extras.drop_first()[i] == extras[i + 1]);
        }
        lemma_compose_skips_placeholders(extras.drop_first(), seen, out);
    }
}

/// Placeholder names never show in a USB class name: when the subclass and protocol
/// names are absent or placeholders (usb.ids files `ff/ff/ff` under `Vendor Specific
/// Class`, `Vendor Specific Subclass`, `Vendor Specific Protocol`), the class reads as
/// its base class name alone.
pub proof fn lemma_usb_class_skips_placeholders(ids: IdsView, base: u8, sub: u8, protocol: u8)
    requires
        ids.usb_classes.contains_key(base as u64),
        no_detail(ids.usb_subclasses.get(key2b(base, sub))),
        no_detail(ids.usb_protocols.get(key3b(base, sub, protocol))),
    ensures
        compose(usb_class_parts(ids, base, sub, protocol)) == Some(ids.usb_classes[base as u64]),
{
    let parts = usb_class_parts(ids, base, sub, protocol);
    let h = ids.usb_classes[base as u64];
    assert(parts[0] == h);
    assert forall|i: int| 0 <= i < parts.drop_first().len() implies class_placeholder(
        #[trigger] parts.drop_first()[i],
    ) by {
        let a = opt_seq(ids.usb_subclasses.get(key2b(base, sub)));
        let b = opt_seq(ids.usb_protocols.get(key3b(base, sub, protocol)));
        assert(parts.drop_first() =~= a + b);
        if i < a.len() {
            assert(parts.drop_first()[i] == a[i]);
        } else {
            assert(parts.drop_first()[i] == b[i - a.len()]);
        }
    }
    lemma_compose_skips_placeholders(parts.drop_first(), words(h), h);
}

/// Placeholder names never show in a PCI class name either: a prog-if that is absent
/// or a placeholder (pci.ids has `00  Vendor specific` under several subclasses)
/// leaves the subclass name, or the base class name when the subclass is unknown.
pub proof fn lemma_pci_class_skips_placeholders(ids: IdsView, base: u8, sub: u8, progif: u8)
    requires
        ids.pci_subclasses.contains_key(key2b(base, sub)) || ids.pci_classes.contains_key(base as u64),
        no_detail(ids.pci_progifs.get(key3b(base, sub, progif))),
    ensures
        compose(pci_class_parts(ids, base, sub, progif)) == Some(
            if ids.pci_subclasses.contains_key(key2b(base, sub)) {
                ids.pci_subclasses[key2b(base, sub)]
            } else {
                ids.pci_classes[base as u64]
            },
        ),
{
    let parts = pci_class_parts(ids, base, sub, progif);
    let h = if ids.pci_subclasses.contains_key(key2b(base, sub)) {
        ids.pci_subclasses[key2b(base, sub)]
    } else {
        ids.pci_classes[base as u64]
    };
    let a = opt_seq(ids.pci_progifs.get(key3b(base, sub, progif)));
    assert(parts[0] == h);
    assert(parts.drop_first() =~= a);
    lemma_compose_skips_placeholders(parts.drop_first(), words(h), h);
}

} // verus!
