//! Hardware and system facts: the data model and the logic that builds it from what
//! sysfs, procfs, DMI and the hwdata database hold.
//!
//! Everything here is pure data and pure functions over it. Reading files is left to the
//! caller, which hands the contents in; that is what lets every rule below be checked
//! without a machine to probe.
pub mod disks;
pub mod firmware;
pub mod graphics;
pub mod hwids;
pub mod labels;
pub mod network;
pub mod pci;
pub mod summary;
pub mod usb;
pub mod util;

use vstd::prelude::*;
use crate::num::hex_str;
use crate::text::{chars_of, string_of, trim_ws, trimmed, Class};
use util::{is_placeholder, is_placeholder_spec, trim_attr_spec, Attr};

verus! {

/// An attribute that may be missing, or present but readable only by root.
///
/// Rendering "requires root" instead of silently dropping the row is the difference
/// between "this machine has no TPM" and "we were not allowed to look".
#[derive(Debug, Clone, PartialEq, Eq)]
pub enum Value {
    Known(String),
    Unavailable,
    RequiresRoot,
}

/// What a `Value` says, with the text taken by its view.
pub enum ValueView {
    Known(Seq<char>),
    Unavailable,
    RequiresRoot,
}

impl View for Value {
    type V = ValueView;

    open spec fn view(&self) -> ValueView {
        match self {
            Value::Known(s) => ValueView::Known(s@),
            Value::Unavailable => ValueView::Unavailable,
            Value::RequiresRoot => ValueView::RequiresRoot,
        }
    }
}

impl Default for Value {
    fn default() -> (v: Self)
        ensures
            v@ == ValueView::Unavailable,
    {
        Value::Unavailable
    }
}

/// `Value::from_path`'s rule, over the outcome of the read.
pub open spec fn value_of_attr(a: Attr) -> ValueView {
    match a {
        Attr::Text(t) => match trim_attr_spec(t@) {
            Some(s) => ValueView::Known(s),
            None => ValueView::Unavailable,
        },
        Attr::Denied => ValueView::RequiresRoot,
        Attr::Missing => ValueView::Unavailable,
    }
}

/// `Value::first_known`'s rule.
pub open spec fn first_known_spec(c: Seq<ValueView>) -> ValueView
    decreases c.len(),
{
    if c.len() == 0 {
        ValueView::Unavailable
    } else {
        match c[0] {
            ValueView::Known(s) => ValueView::Known(s),
            ValueView::RequiresRoot => match first_known_spec(c.drop_first()) {
                ValueView::Known(s) => ValueView::Known(s),
                _ => ValueView::RequiresRoot,
            },
            ValueView::Unavailable => first_known_spec(c.drop_first()),
        }
    }
}

pub open spec fn value_views(c: Seq<Value>) -> Seq<ValueView> {
    c.map_values(|v: Value| v@)
}

impl Value {
    /// An attribute read, distinguishing "absent" from "permission denied".
    pub fn from_attr(a: Attr) -> (v: Self)
        ensures
            v@ == value_of_attr(a),
    {
        match a {
            Attr::Text(t) => {
                let c = chars_of(t.as_str());
                let s = trimmed(c.as_slice(), &Class::Ws);
                if s.len() == 0 {
                    Value::Unavailable
                } else {
                    Value::Known(string_of(s.as_slice()))
                }
            },
            Attr::Denied => Value::RequiresRoot,
            Attr::Missing => Value::Unavailable,
        }
    }

    /// Like [`Value::from_attr`], but also rejects OEM placeholder strings such as
    /// `To be filled by O.E.M.`; `read` is what the plain read gave.
    pub fn from_dmi(read: Value) -> (v: Self)
        ensures
            v@ == (match read@ {
                ValueView::Known(s) => if is_placeholder_spec(s) {
                    ValueView::Unavailable
                } else {
                    ValueView::Known(s)
                },
                other => other,
            }),
    {
        match read {
            Value::Known(value) => if is_placeholder(value.as_str()) {
                Value::Unavailable
            } else {
                Value::Known(value)
            },
            other => other,
        }
    }

    pub fn known(value: String) -> (v: Self)
        ensures
            v@ == (if trim_ws(value@).len() == 0 {
                ValueView::Unavailable
            } else {
                ValueView::Known(value@)
            }),
    {
        let c = chars_of(value.as_str());
        let t = trimmed(c.as_slice(), &Class::Ws);
        if t.len() == 0 {
            Value::Unavailable
        } else {
            Value::Known(value)
        }
    }

    pub fn from_option(value: Option<String>) -> (v: Self)
        ensures
            v@ == (match value {
                Some(s) => if trim_ws(s@).len() == 0 {
                    ValueView::Unavailable
                } else {
                    ValueView::Known(s@)
                },
                None => ValueView::Unavailable,
            }),
    {
        match value {
            Some(s) => Self::known(s),
            None => Value::Unavailable,
        }
    }

    pub fn as_str(&self) -> (r: Option<&str>)
        ensures
            match self@ {
                ValueView::Known(s) => r is Some && r->0@ == s,
                _ => r is None,
            },
    {
        match self {
            Value::Known(value) => Some(value.as_str()),
            _ => None,
        }
    }

    /// First known value out of several candidates; when there is none, `RequiresRoot`
    /// if any candidate was root-gated, else `Unavailable`.
    pub fn first_known(candidates_in: Vec<Value>) -> (v: Self)
        ensures
            v@ == first_known_spec(value_views(candidates_in@)),
    {
        let ghost cs = value_views(candidates_in@);
        let ghost orig = candidates_in@;
        let ghost n = orig.len();
        let mut candidates = candidates_in;
        let n_exec = candidates.len();
        let mut fallback = Value::Unavailable;
        let mut i: usize = 0;
        proof {
            assert(orig.subrange(0, n as int) =~= orig);
            assert(cs.subrange(0, n as int) =~= cs);
        }
        while candidates.len() > 0
            invariant
                n == orig.len(),
                n == n_exec,
                orig == candidates_in@,
                cs == value_views(orig),
                i <= n,
                candidates@ == orig.subrange(i as int, n as int),
                fallback@ == ValueView::Unavailable || fallback@ == ValueView::RequiresRoot,
                first_known_spec(cs) == (match first_known_spec(
                    cs.subrange(i as int, n as int),
                ) {
                    ValueView::Known(s) => ValueView::Known(s),
                    other => if fallback@ == ValueView::RequiresRoot {
                        ValueView::RequiresRoot
                    } else {
                        other
                    },
                }),
            decreases candidates@.len(),
        {
            let ghost rest = cs.subrange(i as int, n as int);
            proof {
                assert(rest[0] == orig[i as int]@);
                assert(rest.drop_first() =~= cs.subrange(i + 1, n as int));
                assert(candidates@.remove(0) =~= orig.subrange(i + 1, n as int));
            }
            let candidate = candidates.remove(0);
            proof {
                assert(candidate@ == rest[0]);
            }
            match candidate {
                Value::Known(_) => {
                    proof {
                        assert(first_known_spec(rest) == rest[0]);
                        assert(first_known_spec(cs) == candidate@);
                        assert(orig == candidates_in@);
                    }
                    return candidate;
                },
                Value::RequiresRoot => {
                    fallback = Value::RequiresRoot;
                },
                Value::Unavailable => {},
            }
            i += 1;
        }
        proof {
            assert(cs.subrange(i as int, n as int).len() == 0);
        }
        fallback
    }
}

// ---------------------------------------------------------------- summary
/// The headline facts about the machine.
#[derive(Debug, Clone)]
pub struct Summary {
    pub vendor: Value,
    pub model: Value,
    pub board: Value,
    pub os_name: Value,
    pub os_build: Value,
    pub kernel: Value,
    pub architecture: Value,
    pub hostname: Value,
    pub uptime_secs: Option<u64>,
    pub cpu: Cpu,
    pub mem_total_bytes: Option<u64>,
    pub swap_total_bytes: Option<u64>,
    pub gpu_names: Vec<String>,
    pub disk_total_bytes: u64,
    pub disk_count: usize,
    pub desktop: Value,
    pub desktop_version: String,
    pub display_server: DisplayServer,
}

/// The head word of a vendor name, as a machine name is checked against it: its first
/// word (the whole name when it has none), without surrounding punctuation, lower-cased.
pub open spec fn vendor_head(vendor: Seq<char>) -> Seq<char> {
    let fs = crate::text::fields(vendor, Class::Ws);
    let w = if fs.len() > 0 {
        fs[0]
    } else {
        vendor
    };
    crate::text::lowercase(crate::text::trim(w, Class::NotAlnum))
}

/// Vendor plus model, as a human would name the machine: the vendor is left out when the
/// lower-cased model already starts with the vendor's head word.
pub open spec fn machine_of(vendor: ValueView, model: ValueView, board: ValueView) -> Option<Seq<char>> {
    let m = first_known_spec(seq![model, board]);
    match (vendor, m) {
        (ValueView::Known(v), ValueView::Known(mm)) => if crate::text::starts_with(
            crate::text::lowercase(mm),
            vendor_head(v),
        ) {
            Some(mm)
        } else {
            Some(spaced(v, mm))
        },
        (_, ValueView::Known(mm)) => Some(mm),
        (ValueView::Known(v), _) => Some(v),
        _ => None,
    }
}

fn copy_value(v: &Value) -> (r: Value)
    ensures
        r@ == v@,
{
    match v {
        Value::Known(s) => Value::Known(s.clone()),
        Value::Unavailable => Value::Unavailable,
        Value::RequiresRoot => Value::RequiresRoot,
    }
}

impl Summary {
    /// Vendor plus model, as a human would name the machine.
    ///
    /// `product_name` is OEM junk on most retail boards and gets filtered to
    /// `Unavailable`, so the board name is the fallback. The vendor is dropped when the
    /// model already starts with it ("ASUSTeK COMPUTER INC." / "TUF GAMING Z790-PRO").
    pub fn machine(&self) -> (r: Option<String>)
        ensures
            opt_view(r) == machine_of(self.vendor@, self.model@, self.board@),
    {
        let mut cs: Vec<Value> = Vec::new();
        cs.push(copy_value(&self.model));
        cs.push(copy_value(&self.board));
        proof {
            assert(value_views(cs@) =~= seq![self.model@, self.board@]);
        }
        let model = Value::first_known(cs);
        match (self.vendor.as_str(), model.as_str()) {
            (Some(vendor), Some(m)) => {
                let vc = chars_of(vendor);
                let fs = crate::text::fields_of(vc.as_slice(), &Class::Ws);
                let w: Vec<char> = if fs.len() > 0 {
                    crate::text::slice_to_vec(fs[0].as_slice(), 0, fs[0].len())
                } else {
                    crate::text::slice_to_vec(vc.as_slice(), 0, vc.len())
                };
                proof {
                    if fs@.len() > 0 {
                        assert(fs@[0]@.subrange(0, fs@[0]@.len() as int) =~= fs@[0]@);
                        assert(crate::text::views(fs@)[0] == fs@[0]@);
                    } else {
                        assert(vc@.subrange(0, vc@.len() as int) =~= vc@);
                    }
                }
                let t = trimmed(w.as_slice(), &Class::NotAlnum);
                let ts = string_of(t.as_slice());
                let head = crate::text::str_to_lowercase(ts.as_str());
                let ml = crate::text::str_to_lowercase(m);
                let mlc = chars_of(ml.as_str());
                let hc = chars_of(head.as_str());
                if crate::text::has_prefix(mlc.as_slice(), hc.as_slice()) {
                    Some(m.to_owned())
                } else {
                    Some(join_spaced(vendor, m))
                }
            },
            (None, Some(m)) => Some(m.to_owned()),
            (Some(vendor), None) => Some(vendor.to_owned()),
            (None, None) => None,
        }
    }
}

#[derive(Debug, Clone)]
pub struct Cpu {
    pub model: Value,
    pub vendor: Value,
    pub physical_cores: Option<u32>,
    pub logical_threads: Option<u32>,
    pub sockets: Option<u32>,
    pub max_freq_khz: Option<u64>,
}

#[derive(Debug, Clone, Copy, PartialEq, Eq)]
pub enum DisplayServer {
    Wayland,
    X11,
    Tty,
    Unknown,
}

impl DisplayServer {
    pub fn as_str(self) -> (s: &'static str)
        ensures
            s@ == (match self {
                DisplayServer::Wayland => "Wayland"@,
                DisplayServer::X11 => "X11"@,
                DisplayServer::Tty => "TTY"@,
                DisplayServer::Unknown => "unknown"@,
            }),
    {
        match self {
            DisplayServer::Wayland => "Wayland",
            DisplayServer::X11 => "X11",
            DisplayServer::Tty => "TTY",
            DisplayServer::Unknown => "unknown",
        }
    }
}

// ---------------------------------------------------------------- usb
/// A USB device as read from sysfs, before hwdata name resolution.
#[derive(Debug, Clone)]
pub struct UsbRaw {
    pub sysfs_name: String,
    /// sysfs name of the hub this device hangs off; `None` for a root hub.
    pub parent: Option<String>,
    pub bus: u32,
    pub device: u32,
    pub depth: usize,
    pub vendor_id: u16,
    pub product_id: u16,
    pub manufacturer: Option<String>,
    pub product: Option<String>,
    pub serial: Option<String>,
    /// The negotiated link speed exactly as sysfs spells it, in Mbps (`1.5`, `480`).
    pub speed: Option<String>,
    pub usb_version: Option<String>,
    pub class: u8,
    pub subclass: u8,
    pub protocol: u8,
    pub interfaces: Vec<UsbInterface>,
}

#[derive(Debug, Clone)]
pub struct UsbDevice {
    pub raw: UsbRaw,
    /// hwdata vendor name, used when sysfs has no `manufacturer` string.
    pub vendor_name: Option<String>,
    /// hwdata product name, used when sysfs has no `product` string.
    pub product_name: Option<String>,
    pub class_name: Option<String>,
}

/// `{:04x}:{:04x}`.
pub open spec fn id_pair(a: u16, b: u16) -> Seq<char> {
    hex_str(a as nat, 4) + seq![':'] + hex_str(b as nat, 4)
}

pub fn id_pair_string(a: u16, b: u16) -> (s: String)
    ensures
        s@ == id_pair(a, b),
{
    let mut v = crate::num::hex_chars(a as u64, 4);
    v.push(':');
    let w = crate::num::hex_chars(b as u64, 4);
    let mut i: usize = 0;
    let ghost start = v@;
    while i < w.len()
        invariant
            i <= w@.len(),
            v@ == start + w@.subrange(0, i as int),
        decreases w@.len() - i,
    {
        v.push(w[i]);
        proof {
            assert(w@.subrange(0, i + 1) =~= w@.subrange(0, i as int).push(w@[i as int]));
        }
        i += 1;
    }
    proof {
        assert(w@.subrange(0, w@.len() as int) =~= w@);
    }
    string_of(v.as_slice())
}

/// `"{a} {b}"`.
pub open spec fn spaced(a: Seq<char>, b: Seq<char>) -> Seq<char> {
    a + seq![' '] + b
}

pub fn join_spaced(a: &str, b: &str) -> (s: String)
    ensures
        s@ == spaced(a@, b@),
{
    let mut v = chars_of(a);
    v.push(' ');
    let w = chars_of(b);
    let ghost start = v@;
    let mut i: usize = 0;
    while i < w.len()
        invariant
            i <= w@.len(),
            v@ == start + w@.subrange(0, i as int),
        decreases w@.len() - i,
    {
        v.push(w[i]);
        proof {
            assert(w@.subrange(0, i + 1) =~= w@.subrange(0, i as int).push(w@[i as int]));
        }
        i += 1;
    }
    proof {
        assert(w@.subrange(0, w@.len() as int) =~= w@);
    }
    string_of(v.as_slice())
}

pub open spec fn opt_view(o: Option<String>) -> Option<Seq<char>> {
    match o {
        Some(s) => Some(s@),
        None => None,
    }
}

pub open spec fn or_else(a: Option<Seq<char>>, b: Option<Seq<char>>) -> Option<Seq<char>> {
    if a is Some {
        a
    } else {
        b
    }
}

/// Vendor and product put together, or whichever of them is known, or the raw ids.
pub open spec fn title_of(vendor: Option<Seq<char>>, product: Option<Seq<char>>, ids: Seq<char>) -> Seq<char> {
    match (vendor, product) {
        (Some(v), Some(p)) => spaced(v, p),
        (Some(v), None) => v,
        (None, Some(p)) => p,
        (None, None) => ids,
    }
}

impl UsbDevice {
    /// Best available human name for the device.
    pub fn title(&self) -> (s: String)
        ensures
            s@ == title_of(
                or_else(opt_view(self.raw.manufacturer), opt_view(self.vendor_name)),
                or_else(opt_view(self.raw.product), opt_view(self.product_name)),
                id_pair(self.raw.vendor_id, self.raw.product_id),
            ),
    {
        let vendor = match &self.raw.manufacturer {
            Some(v) => Some(v.clone()),
            None => self.vendor_name.clone(),
        };
        let product = match &self.raw.product {
            Some(p) => Some(p.clone()),
            None => self.product_name.clone(),
        };
        match (vendor, product) {
            (Some(v), Some(p)) => join_spaced(v.as_str(), p.as_str()),
            (Some(v), None) => v,
            (None, Some(p)) => p,
            (None, None) => id_pair_string(self.raw.vendor_id, self.raw.product_id),
        }
    }

    pub fn id_string(&self) -> (s: String)
        ensures
            s@ == id_pair(self.raw.vendor_id, self.raw.product_id),
    {
        id_pair_string(self.raw.vendor_id, self.raw.product_id)
    }
}

#[derive(Debug, Clone)]
pub struct UsbInterface {
    pub number: u8,
    pub class: u8,
    pub subclass: u8,
    pub protocol: u8,
    pub driver: Option<String>,
    pub class_name: Option<String>,
}

// ---------------------------------------------------------------- pci
/// A PCI device as read from sysfs, before hwdata name resolution.
#[derive(Debug, Clone)]
pub struct PciRaw {
    pub slot: String,
    /// Slot of the bridge this device sits behind; `None` for a root-complex device.
    pub parent: Option<String>,
    pub class_base: u8,
    pub class_sub: u8,
    pub class_progif: u8,
    pub vendor_id: u16,
    pub device_id: u16,
    pub subsystem_vendor_id: Option<u16>,
    pub subsystem_device_id: Option<u16>,
    pub revision: u8,
    pub driver: Option<String>,
    pub modules: Vec<String>,
    pub irq: Option<u32>,
    pub numa_node: Option<i32>,
    /// DRM nodes bound to this device, e.g. `["card1", "renderD128"]`.
    pub drm_nodes: Vec<String>,
}

#[derive(Debug, Clone)]
pub struct PciDevice {
    pub raw: PciRaw,
    pub vendor_name: Option<String>,
    pub device_name: Option<String>,
    pub subsystem_name: Option<String>,
    pub class_name: Option<String>,
}

impl PciDevice {
    pub fn title(&self) -> (s: String)
        ensures
            s@ == (match (opt_view(self.vendor_name), opt_view(self.device_name)) {
                (Some(v), Some(d)) => spaced(v, d),
                (Some(v), None) => spaced(v, id_pair(self.raw.vendor_id, self.raw.device_id)),
                (None, Some(d)) => d,
                (None, None) => id_pair(self.raw.vendor_id, self.raw.device_id),
            }),
    {
        match (&self.vendor_name, &self.device_name) {
            (Some(v), Some(d)) => join_spaced(v.as_str(), d.as_str()),
            (Some(v), None) => {
                let id = self.id_string();
                join_spaced(v.as_str(), id.as_str())
            },
            (None, Some(d)) => d.clone(),
            (None, None) => self.id_string(),
        }
    }

    pub fn id_string(&self) -> (s: String)
        ensures
            s@ == id_pair(self.raw.vendor_id, self.raw.device_id),
    {
        id_pair_string(self.raw.vendor_id, self.raw.device_id)
    }
}

// ---------------------------------------------------------------- graphics
#[derive(Debug, Clone)]
pub struct Graphics {
    pub gpus: Vec<Gpu>,
    pub displays: Vec<Display>,
}

#[derive(Debug, Clone)]
pub struct Gpu {
    pub slot: String,
    pub vendor_name: Option<String>,
    pub device_name: Option<String>,
    pub subsystem_name: Option<String>,
    pub id_string: String,
    pub revision: u8,
    pub driver: Option<String>,
    /// From `/sys/module/<driver>/version`; absent for in-tree DRM drivers (i915, amdgpu).
    pub driver_version: Option<String>,
    pub drm_nodes: Vec<String>,
}

impl Gpu {
    pub fn title(&self) -> (s: String)
        ensures
            s@ == title_of(opt_view(self.vendor_name), opt_view(self.device_name), self.id_string@),
    {
        match (&self.vendor_name, &self.device_name) {
            (Some(v), Some(d)) => join_spaced(v.as_str(), d.as_str()),
            (Some(v), None) => v.clone(),
            (None, Some(d)) => d.clone(),
            (None, None) => self.id_string.clone(),
        }
    }
}

#[derive(Debug, Clone)]
pub struct Display {
    /// Connector name with the `card<N>-` prefix stripped, e.g. `DP-1`.
    pub connector: String,
    pub connected: bool,
    pub make: Option<String>,
    pub model: Option<String>,
    pub serial: Option<String>,
    pub year: Option<u32>,
    pub physical_mm: Option<(u32, u32)>,
    /// First entry of the connector's `modes` attribute: the preferred mode.
    pub preferred_mode: Option<String>,
    pub mode_count: usize,
}

// ---------------------------------------------------------------- firmware
#[derive(Debug, Clone)]
pub struct Firmware {
    pub bios_vendor: Value,
    pub bios_version: Value,
    pub bios_date: Value,
    pub bios_release: Value,
    pub board_vendor: Value,
    pub board_name: Value,
    pub board_version: Value,
    pub board_serial: Value,
    pub chassis_vendor: Value,
    pub chassis_version: Value,
    pub chassis_serial: Value,
    pub chassis_type: Option<u8>,
    pub chassis_type_name: Option<&'static str>,
    pub product_serial: Value,
    pub product_uuid: Value,
    pub firmware_type: FirmwareType,
    pub efi_bits: Option<u8>,
    pub secure_boot: SecureBoot,
    pub tpm: Option<Tpm>,
    pub cpu_microcode: Value,
}

#[derive(Debug, Clone, Copy, PartialEq, Eq)]
pub enum FirmwareType {
    Uefi,
    LegacyBios,
    Unknown,
}

#[derive(Debug, Clone, Copy, PartialEq, Eq)]
pub enum SecureBoot {
    Enabled,
    Disabled,
    SetupMode,
    NotUefi,
    Unknown,
}

#[derive(Debug, Clone)]
pub struct Tpm {
    pub device: String,
    pub version_major: Option<String>,
}

// ---------------------------------------------------------------- disks
#[derive(Debug, Clone)]
pub struct Disk {
    pub name: String,
    pub model: Option<String>,
    pub serial: Option<String>,
    pub firmware: Option<String>,
    pub size_bytes: u64,
    pub kind: DiskKind,
    pub read_only: bool,
    pub logical_block_size: Option<u32>,
    pub partitions: Vec<Partition>,
}

impl Disk {
    pub fn title(&self) -> (s: String)
        ensures
            s@ == (match self.model {
                Some(m) => m@ + " ("@ + self.name@ + ")"@,
                None => self.name@,
            }),
    {
        match &self.model {
            Some(model) => {
                let mut v = chars_of(model.as_str());
                v.push(' ');
                v.push('(');
                let n = chars_of(self.name.as_str());
                let ghost start = v@;
                let mut i: usize = 0;
                while i < n.len()
                    invariant
                        i <= n@.len(),
                        v@ == start + n@.subrange(0, i as int),
                    decreases n@.len() - i,
                {
                    v.push(n[i]);
                    proof {
                        assert(n@.subrange(0, i + 1) =~= n@.subrange(0, i as int).push(
                            n@[i as int],
                        ));
                    }
                    i += 1;
                }
                v.push(')');
                proof {
                    reveal_strlit(" (");
                    reveal_strlit(")");
                    assert(n@.subrange(0, n@.len() as int) =~= n@);
                    assert(v@ =~= model@ + " ("@ + self.name@ + ")"@);
                }
                string_of(v.as_slice())
            },
            None => self.name.clone(),
        }
    }
}

#[derive(Debug, Clone, Copy, PartialEq, Eq)]
pub enum DiskKind {
    Nvme,
    Ssd,
    Hdd,
    Removable,
    Unknown,
}

impl DiskKind {
    pub fn as_str(self) -> (s: &'static str)
        ensures
            s@ == (match self {
                DiskKind::Nvme => "NVMe"@,
                DiskKind::Ssd => "SSD"@,
                DiskKind::Hdd => "HDD"@,
                DiskKind::Removable => "removable"@,
                DiskKind::Unknown => "unknown"@,
            }),
    {
        match self {
            DiskKind::Nvme => "NVMe",
            DiskKind::Ssd => "SSD",
            DiskKind::Hdd => "HDD",
            DiskKind::Removable => "removable",
            DiskKind::Unknown => "unknown",
        }
    }
}

#[derive(Debug, Clone)]
pub struct Partition {
    pub name: String,
    pub size_bytes: u64,
    pub fstype: Option<String>,
    /// A partition can be mounted in several places (bind mounts, btrfs subvolumes).
    pub mountpoints: Vec<String>,
    pub usage: Option<Usage>,
}

#[derive(Debug, Clone, Copy)]
pub struct Usage {
    pub total: u64,
    pub used: u64,
    pub available: u64,
}

// ---------------------------------------------------------------- network
#[derive(Debug, Clone)]
pub struct Interface {
    pub name: String,
    pub kind: IfKind,
    pub mac: Option<String>,
    pub state: IfState,
    pub speed_mbps: Option<u32>,
    pub duplex: Option<String>,
    pub mtu: Option<u32>,
    pub driver: Option<String>,
    /// IPv4 addresses, each as the big-endian number of its four octets.
    pub ipv4: Vec<u32>,
    /// IPv6 addresses, each as the big-endian number of its sixteen octets.
    pub ipv6: Vec<u128>,
}

pub open spec fn is_virtual_kind(k: IfKind) -> bool {
    k == IfKind::Bridge || k == IfKind::Virtual || k == IfKind::Tunnel
}

impl Interface {
    /// Physical interfaces (and loopback) are shown by default; the rest - veth, docker
    /// bridges, vboxnet, virbr - hide behind a toggle, because a developer machine
    /// routinely has 40+ of them and they bury the useful rows.
    pub fn is_virtual(&self) -> (b: bool)
        ensures
            b == is_virtual_kind(self.kind),
    {
        match self.kind {
            IfKind::Bridge | IfKind::Virtual | IfKind::Tunnel => true,
            _ => false,
        }
    }
}

#[derive(Debug, Clone, Copy, PartialEq, Eq)]
pub enum IfKind {
    Loopback,
    Wired,
    Wireless,
    Bridge,
    Virtual,
    Tunnel,
    Other,
}

impl IfKind {
    pub fn as_str(self) -> (s: &'static str)
        ensures
            s@ == (match self {
                IfKind::Loopback => "loopback"@,
                IfKind::Wired => "wired"@,
                IfKind::Wireless => "wireless"@,
                IfKind::Bridge => "bridge"@,
                IfKind::Virtual => "virtual"@,
                IfKind::Tunnel => "tunnel"@,
                IfKind::Other => "other"@,
            }),
    {
        match self {
            IfKind::Loopback => "loopback",
            IfKind::Wired => "wired",
            IfKind::Wireless => "wireless",
            IfKind::Bridge => "bridge",
            IfKind::Virtual => "virtual",
            IfKind::Tunnel => "tunnel",
            IfKind::Other => "other",
        }
    }
}

#[derive(Debug, Clone, Copy, PartialEq, Eq)]
pub enum IfState {
    Up,
    Down,
    Dormant,
    Unknown,
}

impl IfState {
    pub fn as_str(self) -> (s: &'static str)
        ensures
            s@ == (match self {
                IfState::Up => "up"@,
                IfState::Down => "down"@,
                IfState::Dormant => "dormant"@,
                IfState::Unknown => "unknown"@,
            }),
    {
        match self {
            IfState::Up => "up",
            IfState::Down => "down",
            IfState::Dormant => "dormant",
            IfState::Unknown => "unknown",
        }
    }
}

/// Everything the app knows about the machine.
#[derive(Debug, Clone)]
pub struct SysInfo {
    pub summary: Summary,
    pub usb: Vec<UsbDevice>,
    pub graphics: Graphics,
    pub pci: Vec<PciDevice>,
    pub firmware: Firmware,
    pub disks: Vec<Disk>,
    pub network: Vec<Interface>,
    /// True when `/usr/share/hwdata` was missing, so device names are raw hex ids.
    pub hwids_missing: bool,
}

} // verus!
