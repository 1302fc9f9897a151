//! USB topology from `/sys/bus/usb/devices`.
//!
//! The kernel exposes devices and their interfaces side by side in one flat directory,
//! and encodes the whole tree in the directory name. Everything here is name parsing
//! plus a handful of optional attributes the caller read.
use vstd::prelude::*;
use crate::num::{dec_chars, dec_str, is_dec_digit, lemma_dec_roundtrip, lemma_dec_str, parse_u32, parse_u32_spec};
use crate::order::{is_stable_lex_order, is_stable_order, key_views, stable_lex_order, stable_order};
use crate::text::{
    chars_eq, chars_of, has_prefix, lemma_split_at, lemma_split_concat, lemma_split_none,
    slice_to_vec, split, split_char, split_once, split_once_at, starts_with, string_of, views,
};
use super::hwids::{compose, key2, string_opt, str_opt, usb_class_parts, HwIds, IdsView, Wanted, WantedView};
use super::util::{attr_text, attr_trim, read_hex16, read_hex8, read_u32, Attr};
use super::{UsbDevice, UsbInterface, UsbRaw};

verus! {

/// What a directory name in `/sys/bus/usb/devices` denotes.
#[derive(Debug, PartialEq, Eq)]
pub enum NameKind {
    /// `usb1` - the bus's root hub.
    RootHub { bus: u32 },
    /// `1-2`, `1-6.1` - a device, with its port path relative to the root hub.
    Device { bus: u32, ports: Vec<u32> },
    /// `1-2:1.0` - an interface of the device named before the colon.
    Interface { device: String },
    Unknown,
}

pub enum KindView {
    RootHub(u32),
    Device(u32, Seq<u32>),
    Interface(Seq<char>),
    Unknown,
}

impl View for NameKind {
    type V = KindView;

    open spec fn view(&self) -> KindView {
        match self {
            NameKind::RootHub { bus } => KindView::RootHub(*bus),
            NameKind::Device { bus, ports } => KindView::Device(*bus, ports@),
            NameKind::Interface { device } => KindView::Interface(device@),
            NameKind::Unknown => KindView::Unknown,
        }
    }
}

/// The port numbers of a dotted port path, if every segment is one.
pub open spec fn port_list(segs: Seq<Seq<char>>) -> Option<Seq<u32>>
    decreases segs.len(),
{
    if segs.len() == 0 {
        Some(seq![])
    } else {
        match (port_list(segs.drop_last()), parse_u32_spec(segs.last())) {
            (Some(p), Some(x)) => Some(p.push(x)),
            _ => None,
        }
    }
}

/// The directory an interface's prefix refers to: a root hub's own interface is called
/// `1-0:1.0`, but there is no `1-0` directory, the root hub is `usb1`.
pub open spec fn canonical(d: Seq<char>) -> Seq<char> {
    match split_once(d, '-') {
        Some((bus, rest)) => if rest == seq!['0'] {
            "usb"@ + bus
        } else {
            d
        },
        None => d,
    }
}

/// The colon test comes first: an interface name starts with a device name, so
/// `1-2:1.0` would otherwise parse as the device `1-2`.
pub open spec fn name_kind(n: Seq<char>) -> KindView {
    match split_once(n, ':') {
        Some((d, _)) => KindView::Interface(canonical(d)),
        None => if starts_with(n, "usb"@) {
            match parse_u32_spec(n.subrange(3, n.len() as int)) {
                Some(b) => KindView::RootHub(b),
                None => KindView::Unknown,
            }
        } else {
            match split_once(n, '-') {
                Some((b, ports)) => match (parse_u32_spec(b), port_list(split(ports, '.'))) {
                    (Some(bus), Some(ps)) => KindView::Device(bus, ps),
                    _ => KindView::Unknown,
                },
                None => KindView::Unknown,
            }
        },
    }
}

pub fn canonical_device_name(name: &str) -> (r: String)
    ensures
        r@ == canonical(name@),
{
    let c = chars_of(name);
    match split_once_at(c.as_slice(), '-') {
        Some(i) => {
            let n = c.len();
            if n - i == 2 && c[i + 1] == '0' {
                let mut v = chars_of("usb");
                let ghost start = v@;
                proof {
                    reveal_strlit("usb");
                    assert(c@.subrange(i + 1, n as int) =~= seq!['0']);
                }
                let mut k: usize = 0;
                while k < i
                    invariant
                        k <= i < n,
                        n == c@.len(),
                        v@ == start + c@.subrange(0, k as int),
                    decreases i - k,
                {
                    proof {
                        assert(c@.subrange(0, k + 1) =~= c@.subrange(0, k as int).push(c@[k as int]));
                    }
                    v.push(c[k]);
                    k += 1;
                }
                string_of(v.as_slice())
            } else {
                proof {
                    if c@.subrange(i + 1, n as int) == seq!['0'] {
                        assert(c@.subrange(i + 1, n as int).len() == 1);
                        assert(c@.subrange(i + 1, n as int)[0] == c@[i + 1]);
                    }
                }
                name.to_owned()
            }
        },
        None => name.to_owned(),
    }
}

fn ports_of(s: &[char]) -> (r: Option<Vec<u32>>)
    ensures
        match r {
            Some(v) => port_list(split(s@, '.')) == Some(v@),
            None => port_list(split(s@, '.')) is None,
        },
{
    let segs = split_char(s, '.');
    let ghost sv = views(segs@);
    let mut out: Vec<u32> = Vec::new();
    let mut i: usize = 0;
    while i < segs.len()
        invariant
            i <= segs@.len(),
            sv == views(segs@),
            sv == split(s@, '.'),
            port_list(sv.subrange(0, i as int)) == Some(out@),
        decreases segs@.len() - i,
    {
        proof {
            assert(sv.subrange(0, i + 1).drop_last() =~= sv.subrange(0, i as int));
            assert(sv.subrange(0, i + 1).last() == segs@[i as int]@);
        }
        match parse_u32(segs[i].as_slice()) {
            Some(p) => {
                out.push(p);
            },
            None => {
                proof {
                    lemma_port_list_none(sv, i as int + 1);
                }
                return None;
            },
        }
        i += 1;
    }
    proof {
        assert(sv.subrange(0, sv.len() as int) =~= sv);
    }
    Some(out)
}

proof fn lemma_port_list_none(segs: Seq<Seq<char>>, n: int)
    requires
        0 <= n <= segs.len(),
        port_list(segs.subrange(0, n)) is None,
    ensures
        port_list(segs) is None,
    decreases segs.len() - n,
{
    if n < segs.len() {
        assert(segs.subrange(0, n + 1).drop_last() =~= segs.subrange(0, n));
        lemma_port_list_none(segs, n + 1);
    } else {
        assert(segs.subrange(0, n) =~= segs);
    }
}

/// Classifies a `/sys/bus/usb/devices` entry name.
pub fn classify(name: &str) -> (k: NameKind)
    ensures
        k@ == name_kind(name@),
{
    let c = chars_of(name);
    let n = c.len();
    match split_once_at(c.as_slice(), ':') {
        Some(i) => {
            let d = slice_to_vec(c.as_slice(), 0, i);
            let ds = string_of(d.as_slice());
            return NameKind::Interface { device: canonical_device_name(ds.as_str()) };
        },
        None => {},
    }
    let usb = chars_of("usb");
    proof {
        reveal_strlit("usb");
    }
    if has_prefix(c.as_slice(), usb.as_slice()) {
        let rest = slice_to_vec(c.as_slice(), 3, n);
        return match parse_u32(rest.as_slice()) {
            Some(bus) => NameKind::RootHub { bus },
            None => NameKind::Unknown,
        };
    }
    match split_once_at(c.as_slice(), '-') {
        Some(i) => {
            let b = slice_to_vec(c.as_slice(), 0, i);
            let p = slice_to_vec(c.as_slice(), i + 1, n);
            match parse_u32(b.as_slice()) {
                Some(bus) => match ports_of(p.as_slice()) {
                    Some(ports) => NameKind::Device { bus, ports },
                    None => NameKind::Unknown,
                },
                None => NameKind::Unknown,
            }
        },
        None => NameKind::Unknown,
    }
}

// ---------------------------------------------------------------- parents

/// The ports of a path, dotted.
pub open spec fn join_ports(ps: Seq<u32>) -> Seq<char>
    decreases ps.len(),
{
    if ps.len() == 0 {
        seq![]
    } else if ps.len() == 1 {
        dec_str(ps[0] as nat)
    } else {
        join_ports(ps.drop_last()) + seq!['.'] + dec_str(ps.last() as nat)
    }
}

/// The hub a device hangs off: `1-6.1` off `1-6`, and a device straight on a bus (`1-2`)
/// off that bus's root hub, whose directory is `usb1` and not `1-0`.
pub open spec fn parent_spec(bus: u32, ports: Seq<u32>) -> Option<Seq<char>> {
    if ports.len() == 0 {
        None
    } else if ports.len() == 1 {
        Some("usb"@ + dec_str(bus as nat))
    } else {
        Some(dec_str(bus as nat) + seq!['-'] + join_ports(ports.drop_last()))
    }
}

/// A dotted port path is digits and dots, and reads back as the ports it was written
/// from.
proof fn lemma_join_ports(ps: Seq<u32>)
    requires
        ps.len() >= 1,
    ensures
        forall|i: int| 0 <= i < join_ports(ps).len() ==> is_dec_digit(#[trigger] join_ports(ps)[i])
            || join_ports(ps)[i] == '.',
        port_list(split(join_ports(ps), '.')) == Some(ps),
    decreases ps.len(),
{
    let d = dec_str(ps.last() as nat);
    lemma_dec_str(ps.last() as nat);
    lemma_dec_roundtrip(ps.last());
    assert forall|i: int| 0 <= i < d.len() implies d[i] != '.' by {
        assert(crate::num::is_radix_digit(d[i], 10));
    }
    lemma_split_none(d, '.');
    if ps.len() == 1 {
        assert(ps.last() == ps[0]);
        assert(join_ports(ps) == d);
        assert forall|i: int| 0 <= i < d.len() implies is_dec_digit(#[trigger] d[i]) by {
            assert(crate::num::is_radix_digit(d[i], 10));
        }
        assert(seq![d].drop_last() =~= Seq::<Seq<char>>::empty());
        assert(port_list(Seq::<Seq<char>>::empty()) == Some(Seq::<u32>::empty()));
        assert(seq![d].last() == d);
        assert(port_list(seq![d]) == Some(Seq::<u32>::empty().push(ps.last())));
        assert(Seq::<u32>::empty().push(ps.last()) =~= ps);
    } else {
        let j = join_ports(ps.drop_last());
        lemma_join_ports(ps.drop_last());
        assert(join_ports(ps) == j + seq!['.'] + d);
        lemma_split_concat(j, d, '.');
        let segs = split(j, '.') + seq![d];
        assert(split(join_ports(ps), '.') == segs);
        assert(segs.drop_last() =~= split(j, '.'));
        assert(segs.last() == d);
        assert(port_list(segs) == Some(ps.drop_last().push(ps.last())));
        assert(ps.drop_last().push(ps.last()) =~= ps);
        let jp = join_ports(ps);
        assert forall|i: int| 0 <= i < jp.len() implies is_dec_digit(#[trigger] jp[i]) || jp[i] == '.' by {
            if i < j.len() {
                assert(jp[i] == j[i]);
            } else if i > j.len() {
                assert(jp[i] == d[i - j.len() - 1]);
                assert(crate::num::is_radix_digit(d[i - j.len() - 1], 10));
            }
        }
    }
}

/// The hub a device hangs off, named by `parent_name`, classifies as the device one
/// level up its port path: a device straight on a bus hangs off that bus's root hub,
/// any other off the device its port path without the last port leads to.
pub proof fn lemma_parent_is_one_level_up(bus: u32, ports: Seq<u32>)
    requires
        ports.len() >= 1,
    ensures
        parent_spec(bus, ports) matches Some(p) && name_kind(p) == (if ports.len() == 1 {
            KindView::RootHub(bus)
        } else {
            KindView::Device(bus, ports.drop_last())
        }),
{
    let b = dec_str(bus as nat);
    lemma_dec_str(bus as nat);
    lemma_dec_roundtrip(bus);
    reveal_strlit("usb");
    if ports.len() == 1 {
        let p = "usb"@ + b;
        assert forall|i: int| 0 <= i < p.len() implies p[i] != ':' by {
            if i >= 3 {
                assert(p[i] == b[i - 3]);
                assert(crate::num::is_radix_digit(b[i - 3], 10));
            }
        }
        lemma_split_none(p, ':');
        assert(p.subrange(0, 3) =~= "usb"@);
        assert(p.subrange(3, p.len() as int) =~= b);
    } else {
        let rest = ports.drop_last();
        let j = join_ports(rest);
        lemma_join_ports(rest);
        let p = b + seq!['-'] + j;
        assert forall|i: int| 0 <= i < p.len() implies p[i] != ':' by {
            if i < b.len() {
                assert(p[i] == b[i]);
                assert(crate::num::is_radix_digit(b[i], 10));
            } else if i > b.len() {
                assert(p[i] == j[i - b.len() - 1]);
            }
        }
        lemma_split_none(p, ':');
        assert(p[0] == b[0]);
        assert(crate::num::is_radix_digit(b[0], 10));
        assert(!starts_with(p, "usb"@)) by {
            if starts_with(p, "usb"@) {
                assert(p.subrange(0, 3)[0] == p[0]);
            }
        }
        assert forall|i: int| 0 <= i < b.len() implies b[i] != '-' by {
            assert(crate::num::is_radix_digit(b[i], 10));
        }
        lemma_split_at(b, j, '-');
    }
}

fn append(v: &mut Vec<char>, w: &Vec<char>)
    ensures
        final(v)@ == old(v)@ + w@,
{
    let mut k: usize = 0;
    let ghost start = v@;
    while k < w.len()
        invariant
            k <= w@.len(),
            v@ == start + w@.subrange(0, k as int),
        decreases w@.len() - k,
    {
        proof {
            assert(w@.subrange(0, k + 1) =~= w@.subrange(0, k as int).push(w@[k as int]));
        }
        v.push(w[k]);
        k += 1;
    }
    proof {
        assert(w@.subrange(0, w@.len() as int) =~= w@);
    }
}

/// sysfs name of the hub a device is plugged into, read off its port path.
pub fn parent_name(bus: u32, ports: &[u32]) -> (r: Option<String>)
    ensures
        string_opt(r) == parent_spec(bus, ports@),
{
    let n = ports.len();
    if n == 0 {
        return None;
    }
    let b = dec_chars(bus as u64);
    if n == 1 {
        let mut v = chars_of("usb");
        append(&mut v, &b);
        return Some(string_of(v.as_slice()));
    }
    let mut v = b;
    v.push('-');
    let mut j: usize = 0;
    let ghost start = v@;
    while j < n - 1
        invariant
            j <= n - 1,
            n == ports@.len(),
            n >= 2,
            v@ == start + join_ports(ports@.subrange(0, j as int)),
        decreases n - 1 - j,
    {
        let d = dec_chars(ports[j] as u64);
        let ghost before = v@;
        proof {
            let p = ports@.subrange(0, j + 1);
            assert(p.drop_last() =~= ports@.subrange(0, j as int));
            assert(p.last() == ports@[j as int]);
        }
        if j > 0 {
            v.push('.');
        }
        append(&mut v, &d);
        proof {
            if j == 0 {
                assert(ports@.subrange(0, 0).len() == 0);
                assert(v@ =~= start + join_ports(ports@.subrange(0, 1)));
            } else {
                assert(v@ =~= start + join_ports(ports@.subrange(0, j as int)) + seq!['.'] + dec_str(
                    ports@[j as int] as nat,
                ));
            }
        }
        j += 1;
    }
    proof {
        assert(ports@.subrange(0, n - 1) =~= ports@.drop_last());
    }
    Some(string_of(v.as_slice()))
}

// ---------------------------------------------------------------- reading

/// What one entry of `/sys/bus/usb/devices` gave. Devices and interfaces share the
/// directory, so an entry carries the attributes of both; the ones that do not apply
/// are simply missing.
pub struct UsbEntry {
    pub name: String,
    pub busnum: Attr,
    pub devnum: Attr,
    pub id_vendor: Attr,
    pub id_product: Attr,
    pub manufacturer: Attr,
    pub product: Attr,
    pub serial: Attr,
    pub speed: Attr,
    pub version: Attr,
    pub device_class: Attr,
    pub device_subclass: Attr,
    pub device_protocol: Attr,
    pub interface_number: Attr,
    pub interface_class: Attr,
    pub interface_subclass: Attr,
    pub interface_protocol: Attr,
    /// Base name of the `driver` link; absent when nothing is bound.
    pub driver: Option<String>,
}

pub open spec fn hex16_or0(a: Attr) -> u16 {
    match super::util::hex_attr_spec(a) {
        Some(v) => if v <= u16::MAX {
            v as u16
        } else {
            0
        },
        None => 0,
    }
}

pub open spec fn hex8_of(a: Attr) -> Option<u8> {
    match super::util::hex_attr_spec(a) {
        Some(v) => if v <= u8::MAX {
            Some(v as u8)
        } else {
            None
        },
        None => None,
    }
}

pub open spec fn hex8_or0(a: Attr) -> u8 {
    match hex8_of(a) {
        Some(v) => v,
        None => 0,
    }
}

pub open spec fn u32_of(a: Attr) -> Option<u32> {
    match attr_text(a) {
        Some(t) => parse_u32_spec(t),
        None => None,
    }
}

/// `i` is the interface read from `e`, which has an interface number.
pub open spec fn iface_ok(e: UsbEntry, i: UsbInterface) -> bool {
    &&& Some(i.number) == hex8_of(e.interface_number)
    &&& i.class == hex8_or0(e.interface_class)
    &&& i.subclass == hex8_or0(e.interface_subclass)
    &&& i.protocol == hex8_or0(e.interface_protocol)
    &&& i.driver == e.driver
    &&& i.class_name is None
}

/// An interface, or `None` without an interface number.
pub fn read_interface(e: &UsbEntry) -> (r: Option<UsbInterface>)
    ensures
        r is Some <==> hex8_of(e.interface_number) is Some,
        r matches Some(i) ==> iface_ok(*e, i),
{
    let number = match read_hex8(&e.interface_number) {
        Some(n) => n,
        None => return None,
    };
    Some(UsbInterface {
        number,
        class: unwrap8(read_hex8(&e.interface_class)),
        subclass: unwrap8(read_hex8(&e.interface_subclass)),
        protocol: unwrap8(read_hex8(&e.interface_protocol)),
        driver: e.driver.clone(),
        class_name: None,
    })
}

fn unwrap8(o: Option<u8>) -> (v: u8)
    ensures
        v == (match o {
            Some(x) => x,
            None => 0,
        }),
{
    match o {
        Some(x) => x,
        None => 0,
    }
}

pub open spec fn opt_string(o: Option<String>) -> Option<Seq<char>> {
    match o {
        Some(s) => Some(s@),
        None => None,
    }
}

/// `r` is the device read from `e`, placed in the tree as its name says.
pub open spec fn device_ok(e: UsbEntry, bus_from_name: u32, depth: usize, parent: Option<Seq<char>>, r: UsbRaw) -> bool {
    &&& r.sysfs_name@ == e.name@
    &&& string_opt(r.parent) == parent
    &&& r.bus == (match u32_of(e.busnum) {
        Some(b) => b,
        None => bus_from_name,
    })
    &&& r.device == (match u32_of(e.devnum) {
        Some(d) => d,
        None => 0,
    })
    &&& r.depth == depth
    &&& r.vendor_id == hex16_or0(e.id_vendor)
    &&& r.product_id == hex16_or0(e.id_product)
    &&& opt_string(r.manufacturer) == attr_text(e.manufacturer)
    &&& opt_string(r.product) == attr_text(e.product)
    &&& opt_string(r.serial) == attr_text(e.serial)
    &&& opt_string(r.speed) == attr_text(e.speed)
    &&& opt_string(r.usb_version) == attr_text(e.version)
    &&& r.class == hex8_or0(e.device_class)
    &&& r.subclass == hex8_or0(e.device_subclass)
    &&& r.protocol == hex8_or0(e.device_protocol)
}

fn unwrap16(o: Option<u16>) -> (v: u16)
    ensures
        v == (match o {
            Some(x) => x,
            None => 0,
        }),
{
    match o {
        Some(x) => x,
        None => 0,
    }
}

/// One device. `version` is `" 2.00"` - the kernel space pads it - which the trimming
/// read takes care of.
pub fn read_device(
    e: &UsbEntry,
    bus_from_name: u32,
    depth: usize,
    parent: Option<String>,
    interfaces: Vec<UsbInterface>,
) -> (r: UsbRaw)
    ensures
        device_ok(*e, bus_from_name, depth, string_opt(parent), r),
        r.interfaces == interfaces,
{
    UsbRaw {
        sysfs_name: e.name.clone(),
        parent,
        bus: match read_u32(&e.busnum) {
            Some(b) => b,
            None => bus_from_name,
        },
        device: match read_u32(&e.devnum) {
            Some(d) => d,
            None => 0,
        },
        depth,
        vendor_id: unwrap16(read_hex16(&e.id_vendor)),
        product_id: unwrap16(read_hex16(&e.id_product)),
        manufacturer: attr_trim(&e.manufacturer),
        product: attr_trim(&e.product),
        serial: attr_trim(&e.serial),
        speed: attr_trim(&e.speed),
        usb_version: attr_trim(&e.version),
        class: unwrap8(read_hex8(&e.device_class)),
        subclass: unwrap8(read_hex8(&e.device_subclass)),
        protocol: unwrap8(read_hex8(&e.device_protocol)),
        interfaces,
    }
}

// ---------------------------------------------------------------- the tree

pub open spec fn is_device_kind(k: KindView) -> bool {
    k is RootHub || k is Device
}

/// Positions of the entries that are devices (root hubs included).
pub open spec fn dev_positions(es: Seq<UsbEntry>) -> Seq<int>
    decreases es.len(),
{
    if es.len() == 0 {
        seq![]
    } else {
        let p = dev_positions(es.drop_last());
        if is_device_kind(name_kind(es.last().name@)) {
            p.push(es.len() - 1)
        } else {
            p
        }
    }
}

/// The tree-order key of a device: its bus, then its port path. A root hub hangs off no
/// port at all, so it sorts ahead of every device on its bus; and ports compare as
/// numbers, so `1-2` < `1-6` < `1-6.1` < `1-13`.
pub open spec fn dev_key(e: UsbEntry) -> Seq<u32> {
    match name_kind(e.name@) {
        KindView::RootHub(b) => seq![b],
        KindView::Device(b, ps) => seq![b] + ps,
        _ => seq![],
    }
}

pub open spec fn dev_keys(es: Seq<UsbEntry>) -> Seq<Seq<u32>> {
    dev_positions(es).map_values(|p: int| dev_key(es[p]))
}

pub open spec fn dev_names(es: Seq<UsbEntry>) -> Seq<Seq<char>> {
    dev_positions(es).map_values(|p: int| es[p].name@)
}

/// The first of `names` equal to `d`, or `names.len()`.
pub open spec fn first_named(names: Seq<Seq<char>>, d: Seq<char>) -> int
    decreases names.len(),
{
    if names.len() == 0 {
        0
    } else {
        let p = first_named(names.drop_last(), d);
        if p < names.len() - 1 {
            p
        } else if names.last() == d {
            names.len() - 1
        } else {
            names.len() as int
        }
    }
}

pub open spec fn iface_device(e: UsbEntry) -> Seq<char> {
    match name_kind(e.name@) {
        KindView::Interface(d) => d,
        _ => seq![],
    }
}

pub open spec fn is_iface_entry(e: UsbEntry) -> bool {
    name_kind(e.name@) is Interface && hex8_of(e.interface_number) is Some
}

/// Positions of the interface entries attached to device `j` (an index among the
/// devices), in directory order: those whose prefix names it first.
pub open spec fn attached(es: Seq<UsbEntry>, n: int, j: int) -> Seq<int>
    decreases n,
{
    if n <= 0 {
        seq![]
    } else {
        let p = attached(es, n - 1, j);
        let e = es[n - 1];
        if is_iface_entry(e) && first_named(dev_names(es), iface_device(e)) == j {
            p.push(n - 1)
        } else {
            p
        }
    }
}

pub open spec fn numbers_of(es: Seq<UsbEntry>, att: Seq<int>) -> Seq<u128> {
    att.map_values(|q: int| hex8_or0(es[q].interface_number) as u128)
}

/// Device `j`'s interfaces: its attached interfaces sorted by number.
pub open spec fn interfaces_ok(es: Seq<UsbEntry>, j: int, ifs: Seq<UsbInterface>) -> bool {
    let att = attached(es, es.len() as int, j);
    &&& ifs.len() == att.len()
    &&& exists|o: Seq<usize>|
        is_stable_order(numbers_of(es, att), o) && forall|m: int|
            0 <= m < ifs.len() ==> #[trigger] iface_ok(es[att[o[m] as int]], ifs[m])
}

/// `r` is device `j` (an index among the devices) with its interfaces.
pub open spec fn usb_raw_ok(es: Seq<UsbEntry>, j: int, r: UsbRaw) -> bool {
    let e = es[dev_positions(es)[j]];
    &&& match name_kind(e.name@) {
        KindView::RootHub(b) => device_ok(e, b, 0, None, r),
        KindView::Device(b, ps) => device_ok(
            e,
            b,
            (if ps.len() > 0 {
                ps.len() - 1
            } else {
                0
            }) as usize,
            parent_spec(b, ps),
            r,
        ),
        _ => false,
    }
    &&& interfaces_ok(es, j, r.interfaces@)
}

proof fn lemma_dev_positions(es: Seq<UsbEntry>)
    ensures
        forall|j: int|
            0 <= j < dev_positions(es).len() ==> 0 <= #[trigger] dev_positions(es)[j] < es.len()
                && is_device_kind(name_kind(es[dev_positions(es)[j]].name@)),
    decreases es.len(),
{
    if es.len() > 0 {
        lemma_dev_positions(es.drop_last());
        let p = dev_positions(es.drop_last());
        assert forall|j: int| 0 <= j < dev_positions(es).len() implies 0 <= #[trigger] dev_positions(es)[j] < es.len()
            && is_device_kind(name_kind(es[dev_positions(es)[j]].name@)) by {
            if j < p.len() {
                assert(dev_positions(es)[j] == p[j]);
                assert(es[p[j]] == es.drop_last()[p[j]]);
            }
        }
    }
}

proof fn lemma_attached(es: Seq<UsbEntry>, n: int, j: int)
    requires
        n <= es.len(),
    ensures
        forall|m: int|
            0 <= m < attached(es, n, j).len() ==> 0 <= #[trigger] attached(es, n, j)[m] < n
                && is_iface_entry(es[attached(es, n, j)[m]]),
    decreases n,
{
    if n > 0 {
        lemma_attached(es, n - 1, j);
        let p = attached(es, n - 1, j);
        assert forall|m: int| 0 <= m < attached(es, n, j).len() implies 0 <= #[trigger] attached(es, n, j)[m] < n
            && is_iface_entry(es[attached(es, n, j)[m]]) by {
            if m < p.len() {
                assert(attached(es, n, j)[m] == p[m]);
            }
        }
    }
}

proof fn lemma_first_named_prefix(names: Seq<Seq<char>>, d: Seq<char>, n: int)
    requires
        0 <= n <= names.len(),
        first_named(names.subrange(0, n), d) < n,
    ensures
        first_named(names, d) == first_named(names.subrange(0, n), d),
    decreases names.len() - n,
{
    if n < names.len() {
        assert(names.subrange(0, n + 1).drop_last() =~= names.subrange(0, n));
        lemma_first_named_prefix(names, d, n + 1);
    } else {
        assert(names.subrange(0, n) =~= names);
    }
}

fn first_named_exec(names: &Vec<String>, d: &[char]) -> (k: usize)
    ensures
        k == first_named(names@.map_values(|s: String| s@), d@),
{
    let ghost nv = names@.map_values(|s: String| s@);
    let mut k: usize = 0;
    proof {
        assert(nv.subrange(0, 0).len() == 0);
    }
    while k < names.len()
        invariant
            k <= names@.len(),
            nv == names@.map_values(|s: String| s@),
            first_named(nv.subrange(0, k as int), d@) == k,
        decreases names@.len() - k,
    {
        proof {
            assert(nv.subrange(0, k + 1).drop_last() =~= nv.subrange(0, k as int));
            assert(nv.subrange(0, k + 1).last() == names@[k as int]@);
        }
        let c = chars_of(names[k].as_str());
        if chars_eq(c.as_slice(), d) {
            proof {
                lemma_first_named_prefix(nv, d@, k as int + 1);
            }
            return k;
        }
        k += 1;
    }
    proof {
        assert(nv.subrange(0, nv.len() as int) =~= nv);
    }
    k
}

/// Every USB device, in tree order (bus, then port path, numerically), each with its
/// interfaces attached and sorted by number.
pub fn scan(es: &Vec<UsbEntry>) -> (out: Vec<UsbRaw>)
    ensures
        out@.len() == dev_positions(es@).len(),
        exists|order: Seq<usize>|
            is_stable_lex_order(dev_keys(es@), order) && forall|j: int|
                0 <= j < out@.len() ==> #[trigger] usb_raw_ok(es@, order[j] as int, out@[j]),
{
    // Pass 1: which entries are devices, their keys and names; which are interfaces.
    let mut pos: Vec<usize> = Vec::new();
    let mut keys: Vec<Vec<u32>> = Vec::new();
    let mut names: Vec<String> = Vec::new();
    let mut i: usize = 0;
    while i < es.len()
        invariant
            i <= es@.len(),
            pos@.len() == keys@.len(),
            pos@.len() == names@.len(),
            pos@.map_values(|p: usize| p as int) == dev_positions(es@.subrange(0, i as int)),
            forall|j: int| 0 <= j < pos@.len() ==> #[trigger] pos@[j] < i,
            forall|j: int| 0 <= j < pos@.len() ==> #[trigger] keys@[j]@ == dev_key(es@[pos@[j] as int]),
            forall|j: int| 0 <= j < pos@.len() ==> #[trigger] names@[j]@ == es@[pos@[j] as int].name@,
        decreases es@.len() - i,
    {
        proof {
            assert(es@.subrange(0, i + 1).drop_last() =~= es@.subrange(0, i as int));
            assert(es@.subrange(0, i + 1).last() == es@[i as int]);
        }
        match classify(es[i].name.as_str()) {
            NameKind::RootHub { bus } => {
                let mut k: Vec<u32> = Vec::new();
                k.push(bus);
                proof {
                    assert(k@ =~= seq![bus]);
                    assert(pos@.push(i).map_values(|p: usize| p as int) =~= pos@.map_values(|p: usize| p as int).push(i as int));
                }
                pos.push(i);
                keys.push(k);
                names.push(es[i].name.clone());
            },
            NameKind::Device { bus, ports } => {
                let mut k: Vec<u32> = Vec::new();
                k.push(bus);
                let mut m: usize = 0;
                while m < ports.len()
                    invariant
                        m <= ports@.len(),
                        k@ == seq![bus] + ports@.subrange(0, m as int),
                    decreases ports@.len() - m,
                {
                    proof {
                        assert(ports@.subrange(0, m + 1) =~= ports@.subrange(0, m as int).push(ports@[m as int]));
                    }
                    k.push(ports[m]);
                    m += 1;
                }
                proof {
                    assert(ports@.subrange(0, ports@.len() as int) =~= ports@);
                    assert(pos@.push(i).map_values(|p: usize| p as int) =~= pos@.map_values(|p: usize| p as int).push(i as int));
                }
                pos.push(i);
                keys.push(k);
                names.push(es[i].name.clone());
            },
            _ => {},
        }
        i += 1;
    }
    proof {
        assert(es@.subrange(0, es@.len() as int) =~= es@);
        lemma_dev_positions(es@);
        assert(key_views(keys@) =~= dev_keys(es@));
        assert(names@.map_values(|s: String| s@) =~= dev_names(es@));
    }
    // Pass 2: the owner of every interface entry.
    let mut owner: Vec<usize> = Vec::new();
    let mut q: usize = 0;
    while q < es.len()
        invariant
            q <= es@.len(),
            owner@.len() == q,
            names@.map_values(|s: String| s@) == dev_names(es@),
            forall|m: int| 0 <= m < q ==> #[trigger] owner@[m] as int == (if is_iface_entry(es@[m]) {
                first_named(dev_names(es@), iface_device(es@[m]))
            } else {
                -1 as int
            }) || (!is_iface_entry(es@[m]) && owner@[m] == usize::MAX),
        decreases es@.len() - q,
    {
        let o = match classify(es[q].name.as_str()) {
            NameKind::Interface { device } => match read_hex8(&es[q].interface_number) {
                Some(_) => {
                    let d = chars_of(device.as_str());
                    first_named_exec(&names, d.as_slice())
                },
                None => usize::MAX,
            },
            _ => usize::MAX,
        };
        owner.push(o);
        q += 1;
    }
    // Pass 3: build the devices in tree order.
    let order = stable_lex_order(&keys);
    let ghost att_of = |j: int| attached(es@, es@.len() as int, j);
    let mut out: Vec<UsbRaw> = Vec::new();
    let mut j: usize = 0;
    while j < order.len()
        invariant
            j <= order@.len(),
            pos@.len() == keys@.len(),
            pos@.map_values(|p: usize| p as int) == dev_positions(es@),
            forall|m: int| 0 <= m < dev_positions(es@).len() ==> 0 <= #[trigger] dev_positions(es@)[m] < es@.len()
                && is_device_kind(name_kind(es@[dev_positions(es@)[m]].name@)),
            key_views(keys@) == dev_keys(es@),
            is_stable_lex_order(dev_keys(es@), order@),
            owner@.len() == es@.len(),
            names@.map_values(|s: String| s@) == dev_names(es@),
            forall|m: int| 0 <= m < es@.len() ==> #[trigger] owner@[m] as int == (if is_iface_entry(es@[m]) {
                first_named(dev_names(es@), iface_device(es@[m]))
            } else {
                -1 as int
            }) || (!is_iface_entry(es@[m]) && owner@[m] == usize::MAX),
            out@.len() == j,
            forall|m: int| 0 <= m < j ==> #[trigger] usb_raw_ok(es@, order@[m] as int, out@[m]),
        decreases order@.len() - j,
    {
        let dj = order[j];
        let nk = keys.len();
        proof {
            assert(dj < nk);
            assert(pos@.map_values(|p: usize| p as int)[dj as int] == pos@[dj as int] as int);
        }
        let p = pos[dj];
        // The interfaces attached to this device, in directory order.
        let mut att: Vec<usize> = Vec::new();
        let mut nums: Vec<u128> = Vec::new();
        let mut q: usize = 0;
        while q < es.len()
            invariant
                q <= es@.len(),
                owner@.len() == es@.len(),
                dj < pos@.len(),
                dj < usize::MAX,
                forall|m: int| 0 <= m < es@.len() ==> #[trigger] owner@[m] as int == (if is_iface_entry(es@[m]) {
                    first_named(dev_names(es@), iface_device(es@[m]))
                } else {
                    -1 as int
                }) || (!is_iface_entry(es@[m]) && owner@[m] == usize::MAX),
                att@.map_values(|x: usize| x as int) == attached(es@, q as int, dj as int),
                nums@ == numbers_of(es@, attached(es@, q as int, dj as int)),
            decreases es@.len() - q,
        {
            if owner[q] == dj {
                proof {
                    assert(is_iface_entry(es@[q as int]));
                    assert(att@.push(q).map_values(|x: usize| x as int) =~= att@.map_values(|x: usize| x as int).push(q as int));
                    assert(numbers_of(es@, attached(es@, q + 1, dj as int)) =~= numbers_of(es@, attached(es@, q as int, dj as int)).push(hex8_or0(es@[q as int].interface_number) as u128));
                }
                att.push(q);
                nums.push(unwrap8(read_hex8(&es[q].interface_number)) as u128);
            } else {
                proof {
                    assert(!(is_iface_entry(es@[q as int]) && first_named(dev_names(es@), iface_device(es@[q as int])) == dj));
                }
            }
            q += 1;
        }
        let ghost attv = attached(es@, es@.len() as int, dj as int);
        proof {
            lemma_attached(es@, es@.len() as int, dj as int);
        }
        let o2 = stable_order(&nums);
        let mut ifs: Vec<UsbInterface> = Vec::new();
        let mut m: usize = 0;
        while m < o2.len()
            invariant
                m <= o2@.len(),
                att@.map_values(|x: usize| x as int) == attv,
                forall|r: int| 0 <= r < attv.len() ==> 0 <= #[trigger] attv[r] < es@.len() && is_iface_entry(es@[attv[r]]),
                is_stable_order(numbers_of(es@, attv), o2@),
                nums@ == numbers_of(es@, attv),
                ifs@.len() == m,
                forall|r: int| 0 <= r < m ==> #[trigger] iface_ok(es@[attv[o2@[r] as int]], ifs@[r]),
            decreases o2@.len() - m,
        {
            proof {
                assert(att@.map_values(|x: usize| x as int)[o2@[m as int] as int] == att@[o2@[m as int] as int] as int);
            }
            let e = &es[att[o2[m]]];
            match read_interface(e) {
                Some(itf) => {
                    ifs.push(itf);
                },
                None => {
                    proof {
                        assert(false);
                    }
                },
            }
            m += 1;
        }
        let raw = match classify(es[p].name.as_str()) {
            NameKind::RootHub { bus } => read_device(&es[p], bus, 0, None, ifs),
            NameKind::Device { bus, ports } => {
                let depth = if ports.len() > 0 {
                    ports.len() - 1
                } else {
                    0
                };
                let parent = parent_name(bus, ports.as_slice());
                read_device(&es[p], bus, depth, parent, ifs)
            },
            _ => {
                proof {
                    assert(false);
                }
                read_device(&es[p], 0, 0, None, ifs)
            },
        };
        proof {
            assert(interfaces_ok(es@, dj as int, raw.interfaces@));
        }
        out.push(raw);
        proof {
            assert forall|r: int| 0 <= r < j + 1 implies #[trigger] usb_raw_ok(es@, order@[r] as int, out@[r]) by {
                if r < j {
                }
            }
        }
        j += 1;
    }
    out
}

// ---------------------------------------------------------------- names

/// The wanted set after the lookups a device list needs are added.
pub open spec fn usb_wanted(raws: Seq<UsbRaw>, w: WantedView) -> WantedView
    decreases raws.len(),
{
    if raws.len() == 0 {
        w
    } else {
        let p = usb_wanted(raws.drop_last(), w);
        let d = raws.last();
        WantedView {
            usb_vendors: p.usb_vendors.insert(d.vendor_id as u64),
            usb_devices: p.usb_devices.insert(key2(d.vendor_id, d.product_id)),
            ..p
        }
    }
}

/// Registers the hwdata lookups this device list will need.
pub fn collect_wanted(raw: &Vec<UsbRaw>, wanted: &mut Wanted)
    ensures
        final(wanted)@ == usb_wanted(raw@, old(wanted)@),
{
    let ghost w0 = wanted@;
    let mut i: usize = 0;
    while i < raw.len()
        invariant
            i <= raw@.len(),
            w0 == old(wanted)@,
            wanted@ == usb_wanted(raw@.subrange(0, i as int), w0),
        decreases raw@.len() - i,
    {
        proof {
            assert(raw@.subrange(0, i + 1).drop_last() =~= raw@.subrange(0, i as int));
            assert(raw@.subrange(0, i + 1).last() == raw@[i as int]);
        }
        let d = &raw[i];
        wanted.add_usb_vendor(d.vendor_id);
        wanted.add_usb_device(d.vendor_id, d.product_id);
        i += 1;
    }
    proof {
        assert(raw@.subrange(0, raw@.len() as int) =~= raw@);
    }
}

/// `n` is interface `i` with its class name attached.
pub open spec fn named_iface_ok(ids: IdsView, i: UsbInterface, n: UsbInterface) -> bool {
    &&& n.number == i.number
    &&& n.class == i.class
    &&& n.subclass == i.subclass
    &&& n.protocol == i.protocol
    &&& n.driver == i.driver
    &&& string_opt(n.class_name) == compose(usb_class_parts(ids, i.class, i.subclass, i.protocol))
}

/// `d` is `raw` with its hwdata names attached, its interfaces' included.
pub open spec fn usb_resolved_ok(ids: IdsView, raw: UsbRaw, d: UsbDevice) -> bool {
    &&& (UsbRaw { interfaces: raw.interfaces, ..d.raw }) == raw
    &&& d.raw.interfaces@.len() == raw.interfaces@.len()
    &&& forall|m: int|
        0 <= m < raw.interfaces@.len() ==> #[trigger] named_iface_ok(
            ids,
            raw.interfaces@[m],
            d.raw.interfaces@[m],
        )
    &&& string_opt(d.vendor_name) == ids.usb_vendors.get(raw.vendor_id as u64)
    &&& string_opt(d.product_name) == ids.usb_devices.get(key2(raw.vendor_id, raw.product_id))
    &&& string_opt(d.class_name) == compose(usb_class_parts(ids, raw.class, raw.subclass, raw.protocol))
}

fn owned(o: Option<&str>) -> (r: Option<String>)
    ensures
        string_opt(r) == str_opt(o),
{
    match o {
        Some(s) => Some(s.to_owned()),
        None => None,
    }
}

fn name_interfaces(ifs: Vec<UsbInterface>, ids: &HwIds) -> (out: Vec<UsbInterface>)
    requires
        ids.wf(),
    ensures
        out@.len() == ifs@.len(),
        forall|m: int| 0 <= m < ifs@.len() ==> #[trigger] named_iface_ok(ids@, ifs@[m], out@[m]),
{
    let ghost orig = ifs@;
    let n = ifs.len();
    let mut rest = ifs;
    let mut out: Vec<UsbInterface> = Vec::new();
    let mut i: usize = 0;
    while rest.len() > 0
        invariant
            ids.wf(),
            orig.len() == n,
            i <= n,
            rest@ == orig.subrange(i as int, n as int),
            out@.len() == i,
            forall|m: int| 0 <= m < i ==> #[trigger] named_iface_ok(ids@, orig[m], out@[m]),
        decreases rest@.len(),
    {
        proof {
            assert(rest@[0] == orig[i as int]);
        }
        let itf = rest.remove(0);
        proof {
            assert(rest@ =~= orig.subrange(i + 1, n as int));
        }
        let class_name = ids.usb_class(itf.class, itf.subclass, itf.protocol);
        let named = UsbInterface { class_name, ..itf };
        out.push(named);
        proof {
            assert forall|m: int| 0 <= m < i + 1 implies #[trigger] named_iface_ok(ids@, orig[m], out@[m]) by {
                if m < i {
                }
            }
        }
        i += 1;
    }
    out
}

/// Attaches hwdata names to the scanned devices and their interfaces.
pub fn resolve(raw: Vec<UsbRaw>, ids: &HwIds) -> (out: Vec<UsbDevice>)
    requires
        ids.wf(),
    ensures
        out@.len() == raw@.len(),
        forall|j: int| 0 <= j < out@.len() ==> #[trigger] usb_resolved_ok(ids@, raw@[j], out@[j]),
{
    let ghost orig = raw@;
    let n = raw.len();
    let mut rest = raw;
    let mut out: Vec<UsbDevice> = Vec::new();
    let mut i: usize = 0;
    while rest.len() > 0
        invariant
            ids.wf(),
            orig.len() == n,
            i <= n,
            rest@ == orig.subrange(i as int, n as int),
            out@.len() == i,
            forall|j: int| 0 <= j < i ==> #[trigger] usb_resolved_ok(ids@, orig[j], out@[j]),
        decreases rest@.len(),
    {
        proof {
            assert(rest@[0] == orig[i as int]);
        }
        let r = rest.remove(0);
        proof {
            assert(rest@ =~= orig.subrange(i + 1, n as int));
        }
        let vendor_name = owned(ids.usb_vendor(r.vendor_id));
        let product_name = owned(ids.usb_device(r.vendor_id, r.product_id));
        let class_name = ids.usb_class(r.class, r.subclass, r.protocol);
        let ghost r0 = r;
        let UsbRaw {
            sysfs_name,
            parent,
            bus,
            device,
            depth,
            vendor_id,
            product_id,
            manufacturer,
            product,
            serial,
            speed,
            usb_version,
            class,
            subclass,
            protocol,
            interfaces,
        } = r;
        let named = name_interfaces(interfaces, ids);
        let raw2 = UsbRaw {
            sysfs_name,
            parent,
            bus,
            device,
            depth,
            vendor_id,
            product_id,
            manufacturer,
            product,
            serial,
            speed,
            usb_version,
            class,
            subclass,
            protocol,
            interfaces: named,
        };
        let d = UsbDevice { raw: raw2, vendor_name, product_name, class_name };
        proof {
            assert((UsbRaw { interfaces: r0.interfaces, ..d.raw }) == r0);
        }
        out.push(d);
        proof {
            assert forall|j: int| 0 <= j < i + 1 implies #[trigger] usb_resolved_ok(ids@, orig[j], out@[j]) by {
                if j < i {
                }
            }
        }
        i += 1;
    }
    out
}

} // verus!
