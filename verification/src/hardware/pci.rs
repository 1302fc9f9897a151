//! PCI enumeration from `/sys/bus/pci/devices`.
//!
//! Everything comes from the per-device sysfs attributes, which are world readable. The
//! one thing sysfs does not expose is the list of candidate kernel modules for a device
//! (it only tells which driver is bound), so the output of `lspci -nnk`, where it could
//! be had, is parsed for them as optional enrichment.
use vstd::prelude::*;
use crate::num::is_hex_digit;
use crate::text::{
    chars_of, chars_eq, fields, fields_of, has_prefix, lines, lines_of, skip_in, slice_to_vec,
    split, split_char, split_once, starts_with, string_of, trim, trim_start, trimmed, views,
    Class,
};
use super::hwids::{
    compose, key2, key4, pci_class_parts, string_opt, str_opt, HwIds, IdsView, Wanted,
};
use super::util::{attr_text, read_hex, read_hex16, read_hex8, read_i64, read_u32, Attr};
use super::{PciDevice, PciRaw};

verus! {

// ---------------------------------------------------------------- class and slots

pub open spec fn class_parts(class: u32) -> (u8, u8, u8) {
    (((class >> 16) & 0xff) as u8, ((class >> 8) & 0xff) as u8, (class & 0xff) as u8)
}

/// Splits the sysfs `class` attribute into base class, subclass and prog-if.
///
/// The attribute is 24-bit (`0x030000` = base 03, subclass 00, prog-if 00), not the
/// 16-bit code lspci prints; reading it as four hex digits would drop the base class.
pub fn split_class(class: u32) -> (r: (u8, u8, u8))
    ensures
        r == class_parts(class),
{
    (((class >> 16) & 0xff) as u8, ((class >> 8) & 0xff) as u8, (class & 0xff) as u8)
}

/// Index of the last `c` in `s`, or -1.
pub open spec fn last_of(s: Seq<char>, c: char) -> int
    decreases s.len(),
{
    if s.len() == 0 {
        -1
    } else if s.last() == c {
        s.len() - 1
    } else {
        last_of(s.drop_last(), c)
    }
}

pub open spec fn all_hex(s: Seq<char>) -> bool {
    forall|i: int| 0 <= i < s.len() ==> is_hex_digit(#[trigger] s[i])
}

pub open spec fn hex_or_colon(s: Seq<char>) -> bool {
    forall|i: int| 0 <= i < s.len() ==> is_hex_digit(#[trigger] s[i]) || s[i] == ':'
}

/// `bb:dd.f`, or the `dddd:bb:dd.f` form lspci prints with `-D`: split at the last
/// `.`, a non-empty hex function, and a head of hex digits and colons holding a colon.
pub open spec fn slot_like(t: Seq<char>) -> bool {
    let d = last_of(t, '.');
    d >= 0 && ({
        let head = t.subrange(0, d);
        let f = t.subrange(d + 1, t.len() as int);
        &&& f.len() > 0
        &&& all_hex(f)
        &&& head.contains(':')
        &&& hex_or_colon(head)
    })
}

proof fn lemma_last_of(s: Seq<char>, c: char)
    ensures
        -1 <= last_of(s, c) < s.len(),
        last_of(s, c) >= 0 ==> s[last_of(s, c)] == c,
        forall|j: int| last_of(s, c) < j < s.len() ==> s[j] != c,
    decreases s.len(),
{
    if s.len() > 0 && s.last() != c {
        lemma_last_of(s.drop_last(), c);
        assert forall|j: int| last_of(s, c) < j < s.len() implies s[j] != c by {
            if j < s.len() - 1 {
                assert(s.drop_last()[j] == s[j]);
            }
        }
    }
}

fn hex_char(c: char) -> (b: bool)
    ensures
        b == is_hex_digit(c),
{
    ('0' <= c && c <= '9') || ('a' <= c && c <= 'f') || ('A' <= c && c <= 'F')
}

/// True for a PCI slot name.
pub fn is_slot(token: &str) -> (b: bool)
    ensures
        b == slot_like(token@),
{
    let t = chars_of(token);
    let n = t.len();
    let mut d: usize = n;
    while d > 0 && t[d - 1] != '.'
        invariant
            d <= n,
            n == t@.len(),
            forall|j: int| d <= j < n ==> t@[j] != '.',
        decreases d,
    {
        d -= 1;
    }
    proof {
        lemma_last_of(t@, '.');
        let l = last_of(t@, '.');
        if d > 0 {
            assert(t@[d - 1] == '.');
            assert(l == d - 1) by {
                if l > d - 1 {
                    assert(t@[l] == '.');
                }
                if l < d - 1 {
                    assert(t@[d - 1] != '.');
                }
            }
        } else {
            assert(l == -1) by {
                if l >= 0 {
                    assert(t@[l] == '.');
                }
            }
        }
    }
    if d == 0 {
        return false;
    }
    let dot = d - 1;
    if dot + 1 >= n {
        return false;
    }
    let mut i: usize = dot + 1;
    while i < n
        invariant
            dot + 1 <= i <= n,
            n == t@.len(),
            t@ == token@,
            last_of(t@, '.') == dot as int,
            forall|j: int| dot + 1 <= j < i ==> is_hex_digit(#[trigger] t@[j]),
        decreases n - i,
    {
        if !hex_char(t[i]) {
            proof {
                let f = t@.subrange(dot + 1, n as int);
                assert(!is_hex_digit(f[i - dot - 1]));
            }
            return false;
        }
        i += 1;
    }
    proof {
        let f = t@.subrange(dot + 1, n as int);
        assert forall|j: int| 0 <= j < f.len() implies is_hex_digit(#[trigger] f[j]) by {
            assert(f[j] == t@[j + dot + 1]);
        }
    }
    let mut colon = false;
    let mut k: usize = 0;
    while k < dot
        invariant
            k <= dot < n,
            n == t@.len(),
            t@ == token@,
            last_of(t@, '.') == dot as int,
            all_hex(t@.subrange(dot + 1, n as int)),
            t@.subrange(dot + 1, n as int).len() > 0,
            forall|j: int| 0 <= j < k ==> is_hex_digit(#[trigger] t@[j]) || t@[j] == ':',
            colon <==> exists|j: int| 0 <= j < k && t@[j] == ':',
        decreases dot - k,
    {
        let c = t[k];
        if !(hex_char(c) || c == ':') {
            proof {
                let h = t@.subrange(0, dot as int);
                assert(!(is_hex_digit(h[k as int]) || h[k as int] == ':'));
            }
            return false;
        }
        if c == ':' {
            colon = true;
        }
        k += 1;
    }
    proof {
        let h = t@.subrange(0, dot as int);
        assert forall|j: int| 0 <= j < h.len() implies is_hex_digit(#[trigger] h[j]) || h[j] == ':' by {
            assert(h[j] == t@[j]);
        }
        if colon {
            let j = choose|j: int| 0 <= j < dot && t@[j] == ':';
            assert(h[j] == ':');
        }
        if h.contains(':') {
            let j = choose|j: int| 0 <= j < h.len() && h[j] == ':';
            assert(t@[j] == ':');
        }
    }
    colon
}

/// Number of `c` in `s`.
pub open spec fn count_of(s: Seq<char>, c: char) -> nat
    decreases s.len(),
{
    if s.len() == 0 {
        0
    } else {
        count_of(s.drop_last(), c) + if s.last() == c {
            1nat
        } else {
            0nat
        }
    }
}

/// A slot without its PCI domain, since lspci omits `0000:` unless `-D` is passed.
pub open spec fn short_of(slot: Seq<char>) -> Seq<char> {
    if count_of(slot, ':') == 2 {
        match split_once(slot, ':') {
            Some((_, rest)) => rest,
            None => slot,
        }
    } else {
        slot
    }
}

pub fn short_slot(slot: &str) -> (r: String)
    ensures
        r@ == short_of(slot@),
{
    let t = chars_of(slot);
    let mut count: usize = 0;
    let mut i: usize = 0;
    while i < t.len()
        invariant
            i <= t@.len(),
            count == count_of(t@.subrange(0, i as int), ':'),
            count <= i,
        decreases t@.len() - i,
    {
        proof {
            assert(t@.subrange(0, i + 1).drop_last() =~= t@.subrange(0, i as int));
        }
        if t[i] == ':' {
            count += 1;
        }
        i += 1;
    }
    proof {
        assert(t@.subrange(0, t@.len() as int) =~= t@);
    }
    if count == 2 {
        match crate::text::split_once_at(t.as_slice(), ':') {
            Some(j) => {
                let n = t.len();
                let rest = slice_to_vec(t.as_slice(), j + 1, n);
                string_of(rest.as_slice())
            },
            None => string_of(t.as_slice()),
        }
    } else {
        string_of(t.as_slice())
    }
}

// ---------------------------------------------------------------- topology

/// The parts of a link target a path walk sees: the pieces between `/`, with empty
/// pieces and `.` left out.
pub open spec fn path_parts(t: Seq<char>) -> Seq<Seq<char>> {
    kept_parts(split(t, '/'))
}

pub open spec fn kept_parts(ps: Seq<Seq<char>>) -> Seq<Seq<char>>
    decreases ps.len(),
{
    if ps.len() == 0 {
        seq![]
    } else {
        let p = kept_parts(ps.drop_last());
        let x = ps.last();
        if x.len() == 0 || x == seq!['.'] {
            p
        } else {
            p.push(x)
        }
    }
}

pub open spec fn parent_of_link(t: Seq<char>) -> Option<Seq<char>> {
    let ps = path_parts(t);
    if ps.len() >= 2 && slot_like(ps[ps.len() - 2]) {
        Some(ps[ps.len() - 2])
    } else {
        None
    }
}

/// Slot of the bridge a device sits behind, read off the device's sysfs link target.
///
/// Every entry in `/sys/bus/pci/devices` is a symlink into `/sys/devices`, and that path
/// is the topology: `.../pci0000:00/0000:00:1c.2/0000:07:00.0` says the device hangs off
/// bridge `00:1c.2`. The last component is the device itself; the one before it is the
/// parent, but only when it is a slot (under the root complex it is `pci0000:00`).
pub fn parent_from_link(target: &str) -> (r: Option<String>)
    ensures
        string_opt(r) == parent_of_link(target@),
{
    let t = chars_of(target);
    let pieces = split_char(t.as_slice(), '/');
    let ghost pv = views(pieces@);
    let mut parts: Vec<Vec<char>> = Vec::new();
    let mut i: usize = 0;
    while i < pieces.len()
        invariant
            i <= pieces@.len(),
            pv == views(pieces@),
            pv == split(t@, '/'),
            views(parts@) == kept_parts(pv.subrange(0, i as int)),
        decreases pieces@.len() - i,
    {
        proof {
            assert(pv.subrange(0, i + 1).drop_last() =~= pv.subrange(0, i as int));
            assert(pv.subrange(0, i + 1).last() == pieces@[i as int]@);
        }
        let p = &pieces[i];
        let dot = p.len() == 1 && p[0] == '.';
        proof {
            if p@ == seq!['.'] {
                assert(p@.len() == 1);
            }
            if dot {
                assert(p@ =~= seq!['.']);
            }
        }
        if !(p.len() == 0 || dot) {
            let c = slice_to_vec(p.as_slice(), 0, p.len());
            proof {
                assert(p@.subrange(0, p@.len() as int) =~= p@);
                crate::text::lemma_views_push(parts@, c);
            }
            parts.push(c);
        }
        i += 1;
    }
    proof {
        assert(pv.subrange(0, pv.len() as int) =~= pv);
    }
    let n = parts.len();
    if n < 2 {
        return None;
    }
    let cand = string_of(parts[n - 2].as_slice());
    if is_slot(cand.as_str()) {
        Some(cand)
    } else {
        None
    }
}

// ---------------------------------------------------------------- lspci

/// A parsed `lspci -nnk` block: the slot and its candidate kernel modules.
pub open spec fn block_view(b: (String, Vec<String>)) -> (Seq<char>, Seq<Seq<char>>) {
    (b.0@, b.1@.map_values(|s: String| s@))
}

pub open spec fn blocks_view(v: Seq<(String, Vec<String>)>) -> Seq<(Seq<char>, Seq<Seq<char>>)> {
    v.map_values(|b: (String, Vec<String>)| block_view(b))
}

/// The trimmed, non-empty pieces.
pub open spec fn nonempty_trimmed(ps: Seq<Seq<char>>) -> Seq<Seq<char>>
    decreases ps.len(),
{
    if ps.len() == 0 {
        seq![]
    } else {
        let p = nonempty_trimmed(ps.drop_last());
        let t = trim(ps.last(), Class::Ws);
        if t.len() == 0 {
            p
        } else {
            p.push(t)
        }
    }
}

/// The module list after `Kernel modules:`, comma separated.
pub open spec fn module_list(rest: Seq<char>) -> Seq<Seq<char>> {
    nonempty_trimmed(split(rest, ','))
}

/// One line of `lspci -nnk`. A device block starts at column 0 with its slot; every
/// following indented line belongs to it, and only `Kernel modules:` is of interest. A
/// stray continuation line before any device header is ignored.
pub open spec fn lspci_step(
    acc: Seq<(Seq<char>, Seq<Seq<char>>)>,
    line: Seq<char>,
) -> Seq<(Seq<char>, Seq<Seq<char>>)> {
    if line.len() > 0 && (line[0] == ' ' || line[0] == '\t') {
        let t = trim_start(line, Class::Ws);
        if starts_with(t, "Kernel modules:"@) && acc.len() > 0 {
            acc.update(
                acc.len() - 1,
                (acc.last().0, module_list(t.subrange(15, t.len() as int))),
            )
        } else {
            acc
        }
    } else {
        let fs = fields(line, Class::Ws);
        if fs.len() > 0 && slot_like(fs[0]) {
            acc.push((fs[0], seq![]))
        } else {
            acc
        }
    }
}

pub open spec fn lspci_blocks(ls: Seq<Seq<char>>) -> Seq<(Seq<char>, Seq<Seq<char>>)>
    decreases ls.len(),
{
    if ls.len() == 0 {
        seq![]
    } else {
        lspci_step(lspci_blocks(ls.drop_last()), ls.last())
    }
}

fn modules_of(rest: &[char]) -> (out: Vec<String>)
    ensures
        out@.map_values(|s: String| s@) == module_list(rest@),
{
    let pieces = split_char(rest, ',');
    let ghost pv = views(pieces@);
    let mut out: Vec<String> = Vec::new();
    let mut i: usize = 0;
    while i < pieces.len()
        invariant
            i <= pieces@.len(),
            pv == views(pieces@),
            pv == split(rest@, ','),
            out@.map_values(|s: String| s@) == nonempty_trimmed(pv.subrange(0, i as int)),
        decreases pieces@.len() - i,
    {
        proof {
            assert(pv.subrange(0, i + 1).drop_last() =~= pv.subrange(0, i as int));
            assert(pv.subrange(0, i + 1).last() == pieces@[i as int]@);
        }
        let t = trimmed(pieces[i].as_slice(), &Class::Ws);
        if t.len() > 0 {
            let s = string_of(t.as_slice());
            proof {
                assert(out@.push(s).map_values(|s: String| s@) =~= out@.map_values(|s: String| s@).push(
                    s@,
                ));
            }
            out.push(s);
        }
        i += 1;
    }
    proof {
        assert(pv.subrange(0, pv.len() as int) =~= pv);
    }
    out
}

/// Parses the block format of `lspci -nnk` into `(slot, modules)` pairs.
pub fn parse_lspci(text: &str) -> (out: Vec<(String, Vec<String>)>)
    ensures
        blocks_view(out@) == lspci_blocks(lines(text@)),
{
    let c = chars_of(text);
    let ls = lines_of(c.as_slice());
    let ghost all = views(ls@);
    let prefix = chars_of("Kernel modules:");
    proof {
        reveal_strlit("Kernel modules:");
    }
    let mut out: Vec<(String, Vec<String>)> = Vec::new();
    let mut i: usize = 0;
    while i < ls.len()
        invariant
            i <= ls@.len(),
            all == views(ls@),
            all == lines(text@),
            prefix@ == "Kernel modules:"@,
            prefix@.len() == 15,
            blocks_view(out@) == lspci_blocks(all.subrange(0, i as int)),
        decreases ls@.len() - i,
    {
        let ghost acc = blocks_view(out@);
        proof {
            assert(all.subrange(0, i + 1).drop_last() =~= all.subrange(0, i as int));
            assert(all.subrange(0, i + 1).last() == ls@[i as int]@);
        }
        let line = ls[i].as_slice();
        if line.len() > 0 && (line[0] == ' ' || line[0] == '\t') {
            let a = skip_in(line, 0, &Class::Ws);
            let n = line.len();
            let t = slice_to_vec(line, a, n);
            proof {
                assert(line@.subrange(0, n as int) =~= line@);
            }
            if has_prefix(t.as_slice(), prefix.as_slice()) && out.len() > 0 {
                let tn = t.len();
                let rest = slice_to_vec(t.as_slice(), 15, tn);
                let mods = modules_of(rest.as_slice());
                let last = out.pop().unwrap();
                let ghost shorter = out@;
                let entry = (last.0, mods);
                out.push(entry);
                proof {
                    assert(blocks_view(shorter) =~= acc.drop_last());
                    assert(blocks_view(out@) =~= acc.update(
                        acc.len() - 1,
                        (acc.last().0, module_list(t@.subrange(15, t@.len() as int))),
                    ));
                }
            }
        } else {
            let fs = fields_of(line, &Class::Ws);
            if fs.len() > 0 {
                let first = string_of(fs[0].as_slice());
                if is_slot(first.as_str()) {
                    let entry = (first, Vec::new());
                    proof {
                        assert(entry.1@.map_values(|s: String| s@) =~= Seq::<Seq<char>>::empty());
                        assert(blocks_view(out@.push(entry)) =~= acc.push((views(fs@)[0], seq![])));
                    }
                    out.push(entry);
                }
            }
        }
        i += 1;
    }
    proof {
        assert(all.subrange(0, all.len() as int) =~= all);
    }
    out
}

// ---------------------------------------------------------------- devices

/// What the sysfs directory of one PCI device gave.
pub struct PciSource {
    /// Directory name: the full `domain:bus:device.function` slot.
    pub slot: String,
    pub vendor: Attr,
    pub device: Attr,
    pub class: Attr,
    pub subsystem_vendor: Attr,
    pub subsystem_device: Attr,
    pub revision: Attr,
    /// Base name of the `driver` link.
    pub driver: Option<String>,
    pub irq: Attr,
    pub numa_node: Attr,
    /// Entries of `<device>/drm/`, sorted.
    pub drm_nodes: Vec<String>,
    /// Target of the device's sysfs link, when it could be read.
    pub link: Option<String>,
}

pub open spec fn hex16_of(a: Attr) -> Option<u16> {
    match super::util::hex_attr_spec(a) {
        Some(v) => if v <= u16::MAX {
            Some(v as u16)
        } else {
            None
        },
        None => None,
    }
}

pub open spec fn hex8_of(a: Attr) -> Option<u8> {
    match super::util::hex_attr_spec(a) {
        Some(v) => if v <= u8::MAX {
            Some(v as u8)
        } else {
            None
        },
        None => None,
    }
}

pub open spec fn u32_of(a: Attr) -> Option<u32> {
    match attr_text(a) {
        Some(t) => crate::num::parse_u32_spec(t),
        None => None,
    }
}

pub open spec fn i64_of(a: Attr) -> Option<i64> {
    match attr_text(a) {
        Some(t) => crate::num::parse_i64_spec(t),
        None => None,
    }
}

pub open spec fn strings_view(v: Seq<String>) -> Seq<Seq<char>> {
    v.map_values(|s: String| s@)
}

/// `r` is the device read from `s`, with `modules` as its candidate modules.
pub open spec fn raw_ok(s: PciSource, modules: Seq<Seq<char>>, r: PciRaw) -> bool {
    let class = match super::util::hex_attr_spec(s.class) {
        Some(c) => c,
        None => 0,
    };
    &&& r.slot@ == s.slot@
    &&& string_opt(r.parent) == (match s.link {
        Some(l) => parent_of_link(l@),
        None => None,
    })
    &&& Some(r.vendor_id) == hex16_of(s.vendor)
    &&& Some(r.device_id) == hex16_of(s.device)
    &&& (r.class_base, r.class_sub, r.class_progif) == class_parts(class)
    &&& r.subsystem_vendor_id == hex16_of(s.subsystem_vendor)
    &&& r.subsystem_device_id == hex16_of(s.subsystem_device)
    &&& r.revision == (match hex8_of(s.revision) {
        Some(v) => v,
        None => 0,
    })
    &&& r.driver == s.driver
    &&& strings_view(r.modules@) == modules
    &&& r.irq == (match u32_of(s.irq) {
        Some(v) => if v != 0 {
            Some(v)
        } else {
            None
        },
        None => None,
    })
    &&& r.numa_node == (match i64_of(s.numa_node) {
        Some(v) => if 0 <= v <= i32::MAX {
            Some(v as i32)
        } else {
            None
        },
        None => None,
    })
    &&& strings_view(r.drm_nodes@) == strings_view(s.drm_nodes@)
}

fn clone_strings(v: &Vec<String>) -> (out: Vec<String>)
    ensures
        strings_view(out@) == strings_view(v@),
{
    let mut out: Vec<String> = Vec::new();
    let mut i: usize = 0;
    while i < v.len()
        invariant
            i <= v@.len(),
            strings_view(out@) == strings_view(v@.subrange(0, i as int)),
        decreases v@.len() - i,
    {
        let s = v[i].clone();
        proof {
            assert(strings_view(out@.push(s)) =~= strings_view(out@).push(s@));
            assert(strings_view(v@.subrange(0, i + 1)) =~= strings_view(v@.subrange(0, i as int)).push(v@[i as int]@));
        }
        out.push(s);
        i += 1;
    }
    proof {
        assert(v@.subrange(0, v@.len() as int) =~= v@);
    }
    out
}

/// One device, or `None` without a readable vendor and device id: an entry without them
/// is not something that can be identified or named.
pub fn read_device(src: &PciSource, modules: Vec<String>) -> (r: Option<PciRaw>)
    ensures
        r is Some <==> (hex16_of(src.vendor) is Some && hex16_of(src.device) is Some),
        r matches Some(d) ==> raw_ok(*src, strings_view(modules@), d),
{
    let vendor_id = match read_hex16(&src.vendor) {
        Some(v) => v,
        None => return None,
    };
    let device_id = match read_hex16(&src.device) {
        Some(v) => v,
        None => return None,
    };
    let class = match read_hex(&src.class) {
        Some(c) => c,
        None => 0,
    };
    let (class_base, class_sub, class_progif) = split_class(class);
    let parent = match &src.link {
        Some(l) => parent_from_link(l.as_str()),
        None => None,
    };
    let irq = match read_u32(&src.irq) {
        Some(v) => if v != 0 {
            Some(v)
        } else {
            None
        },
        None => None,
    };
    let numa_node = match read_i64(&src.numa_node) {
        Some(v) => if 0 <= v && v <= 0x7fff_ffff {
            Some(v as i32)
        } else {
            None
        },
        None => None,
    };
    let revision = match read_hex8(&src.revision) {
        Some(v) => v,
        None => 0,
    };
    Some(PciRaw {
        slot: src.slot.clone(),
        parent,
        class_base,
        class_sub,
        class_progif,
        vendor_id,
        device_id,
        subsystem_vendor_id: read_hex16(&src.subsystem_vendor),
        subsystem_device_id: read_hex16(&src.subsystem_device),
        revision,
        driver: src.driver.clone(),
        modules,
        irq,
        numa_node,
        drm_nodes: clone_strings(&src.drm_nodes),
    })
}

// ---------------------------------------------------------------- scan

/// Positions of the sources that are identifiable devices.
pub open spec fn pci_kept(ss: Seq<PciSource>) -> Seq<int>
    decreases ss.len(),
{
    if ss.len() == 0 {
        seq![]
    } else {
        let p = pci_kept(ss.drop_last());
        if hex16_of(ss.last().vendor) is Some && hex16_of(ss.last().device) is Some {
            p.push(ss.len() - 1)
        } else {
            p
        }
    }
}

/// A device slot and an lspci slot name the same device, with or without the domain.
pub open spec fn slot_match(a: Seq<char>, b: Seq<char>) -> bool {
    a == b || short_of(a) == short_of(b)
}

/// The first device `s` names, or `slots.len()`.
pub open spec fn first_match(slots: Seq<Seq<char>>, s: Seq<char>) -> int
    decreases slots.len(),
{
    if slots.len() == 0 {
        0
    } else {
        let p = first_match(slots.drop_last(), s);
        if p < slots.len() - 1 {
            p
        } else if slot_match(slots.last(), s) {
            slots.len() - 1
        } else {
            slots.len() as int
        }
    }
}

/// The modules lspci gives device `k`: those of the last block naming it first.
pub open spec fn assigned(slots: Seq<Seq<char>>, blocks: Seq<(Seq<char>, Seq<Seq<char>>)>, k: int) -> Seq<Seq<char>>
    decreases blocks.len(),
{
    if blocks.len() == 0 {
        seq![]
    } else if first_match(slots, blocks.last().0) == k {
        blocks.last().1
    } else {
        assigned(slots, blocks.drop_last(), k)
    }
}

pub open spec fn lspci_view(lspci: Option<&str>) -> Seq<(Seq<char>, Seq<Seq<char>>)> {
    match lspci {
        Some(t) => lspci_blocks(lines(t@)),
        None => seq![],
    }
}

pub open spec fn kept_slots(ss: Seq<PciSource>) -> Seq<Seq<char>> {
    pci_kept(ss).map_values(|p: int| ss[p].slot@)
}

proof fn lemma_pci_kept(ss: Seq<PciSource>)
    ensures
        forall|j: int| 0 <= j < pci_kept(ss).len() ==> 0 <= #[trigger] pci_kept(ss)[j] < ss.len()
            && hex16_of(ss[pci_kept(ss)[j]].vendor) is Some && hex16_of(ss[pci_kept(ss)[j]].device) is Some,
    decreases ss.len(),
{
    if ss.len() > 0 {
        lemma_pci_kept(ss.drop_last());
        let p = pci_kept(ss.drop_last());
        assert forall|j: int| 0 <= j < pci_kept(ss).len() implies 0 <= #[trigger] pci_kept(ss)[j] < ss.len()
            && hex16_of(ss[pci_kept(ss)[j]].vendor) is Some && hex16_of(ss[pci_kept(ss)[j]].device) is Some by {
            if j < p.len() {
                assert(pci_kept(ss)[j] == p[j]);
                assert(ss[p[j]] == ss.drop_last()[p[j]]);
            }
        }
    }
}

/// The kept positions ascend, as the sources do.
proof fn lemma_pci_kept_ascends(ss: Seq<PciSource>)
    ensures
        forall|a: int, b: int|
            0 <= a < b < pci_kept(ss).len() ==> pci_kept(ss)[a] < pci_kept(ss)[b],
    decreases ss.len(),
{
    if ss.len() > 0 {
        lemma_pci_kept_ascends(ss.drop_last());
        lemma_pci_kept(ss.drop_last());
    }
}

/// Text order, character by character by code point, a proper prefix first. On the
/// ASCII slot names sysfs uses it is the order a sorted directory listing gives.
pub open spec fn text_lt(a: Seq<char>, b: Seq<char>) -> bool
    decreases a.len(),
{
    if a.len() == 0 {
        b.len() > 0
    } else if b.len() == 0 {
        false
    } else if a[0] != b[0] {
        (a[0] as u32) < (b[0] as u32)
    } else {
        text_lt(a.drop_first(), b.drop_first())
    }
}

/// Every slot comes strictly before the ones after it.
pub open spec fn slots_ascend(slots: Seq<Seq<char>>) -> bool {
    forall|a: int, b: int| 0 <= a < b < slots.len() ==> text_lt(slots[a], slots[b])
}

pub open spec fn source_slots(ss: Seq<PciSource>) -> Seq<Seq<char>> {
    ss.map_values(|s: PciSource| s.slot@)
}

pub open spec fn raw_slots(rs: Seq<PciRaw>) -> Seq<Seq<char>> {
    rs.map_values(|r: PciRaw| r.slot@)
}

/// Index of the first device that `s` names, or the number of devices.
fn first_match_exec(slots: &Vec<String>, shorts: &Vec<String>, s: &str) -> (k: usize)
    requires
        shorts@.len() == slots@.len(),
        forall|j: int| 0 <= j < slots@.len() ==> #[trigger] shorts@[j]@ == short_of(slots@[j]@),
    ensures
        k == first_match(strings_view(slots@), s@),
{
    let sc = chars_of(s);
    let ss = short_slot(s);
    let ssc = chars_of(ss.as_str());
    let ghost sv = strings_view(slots@);
    let mut k: usize = 0;
    proof {
        assert(sv.subrange(0, 0).len() == 0);
    }
    while k < slots.len()
        invariant
            k <= slots@.len(),
            shorts@.len() == slots@.len(),
            forall|j: int| 0 <= j < slots@.len() ==> #[trigger] shorts@[j]@ == short_of(slots@[j]@),
            sv == strings_view(slots@),
            sc@ == s@,
            ssc@ == short_of(s@),
            first_match(sv.subrange(0, k as int), s@) == k,
        decreases slots@.len() - k,
    {
        let a = chars_of(slots[k].as_str());
        let b = chars_of(shorts[k].as_str());
        proof {
            assert(sv.subrange(0, k + 1).drop_last() =~= sv.subrange(0, k as int));
            assert(sv.subrange(0, k + 1).last() == slots@[k as int]@);
        }
        if chars_eq(a.as_slice(), sc.as_slice()) || chars_eq(b.as_slice(), ssc.as_slice()) {
            proof {
                lemma_first_match_prefix(sv, s@, k as int + 1);
            }
            return k;
        }
        k += 1;
    }
    proof {
        assert(sv.subrange(0, sv.len() as int) =~= sv);
    }
    k
}

/// Once a prefix holds the match, the whole sequence has it there.
proof fn lemma_first_match_prefix(slots: Seq<Seq<char>>, s: Seq<char>, n: int)
    requires
        0 <= n <= slots.len(),
        first_match(slots.subrange(0, n), s) < n,
    ensures
        first_match(slots, s) == first_match(slots.subrange(0, n), s),
    decreases slots.len() - n,
{
    if n < slots.len() {
        assert(slots.subrange(0, n + 1).drop_last() =~= slots.subrange(0, n));
        lemma_first_match_prefix(slots, s, n + 1);
    } else {
        assert(slots.subrange(0, n) =~= slots);
    }
}

/// Every identifiable device, in the order given, with its candidate kernel modules
/// taken from `lspci -nnk` output where there was any. The caller lists the directory
/// sorted, and directory names are slots, so the devices come sorted by slot: sources
/// ascending by slot give devices ascending by slot.
pub fn scan(srcs: &Vec<PciSource>, lspci: Option<&str>) -> (out: Vec<PciRaw>)
    ensures
        slots_ascend(source_slots(srcs@)) ==> slots_ascend(raw_slots(out@)),
        out@.len() == pci_kept(srcs@).len(),
        forall|j: int|
            0 <= j < out@.len() ==> #[trigger] raw_ok(
                srcs@[pci_kept(srcs@)[j]],
                assigned(kept_slots(srcs@), lspci_view(lspci), j),
                out@[j],
            ),
{
    let ghost kept_spec = pci_kept(srcs@);
    let mut kept: Vec<usize> = Vec::new();
    let mut slots: Vec<String> = Vec::new();
    let mut shorts: Vec<String> = Vec::new();
    let mut i: usize = 0;
    while i < srcs.len()
        invariant
            i <= srcs@.len(),
            kept@.len() == slots@.len(),
            kept@.len() == shorts@.len(),
            kept@.map_values(|p: usize| p as int) == pci_kept(srcs@.subrange(0, i as int)),
            forall|j: int| 0 <= j < kept@.len() ==> #[trigger] kept@[j] < i,
            forall|j: int| 0 <= j < kept@.len() ==> #[trigger] slots@[j]@ == srcs@[kept@[j] as int].slot@,
            forall|j: int| 0 <= j < shorts@.len() ==> #[trigger] shorts@[j]@ == short_of(slots@[j]@),
        decreases srcs@.len() - i,
    {
        proof {
            assert(srcs@.subrange(0, i + 1).drop_last() =~= srcs@.subrange(0, i as int));
            assert(srcs@.subrange(0, i + 1).last() == srcs@[i as int]);
        }
        let ok = match (read_hex16(&srcs[i].vendor), read_hex16(&srcs[i].device)) {
            (Some(_), Some(_)) => true,
            _ => false,
        };
        if ok {
            proof {
                assert(kept@.push(i).map_values(|p: usize| p as int) =~= kept@.map_values(|p: usize| p as int).push(i as int));
            }
            kept.push(i);
            let sl = srcs[i].slot.clone();
            let sh = short_slot(sl.as_str());
            slots.push(sl);
            shorts.push(sh);
        }
        i += 1;
    }
    proof {
        assert(srcs@.subrange(0, srcs@.len() as int) =~= srcs@);
        lemma_pci_kept(srcs@);
        assert(strings_view(slots@) =~= kept_slots(srcs@));
    }
    let blocks: Vec<(String, Vec<String>)> = match lspci {
        Some(t) => parse_lspci(t),
        None => {
            let v: Vec<(String, Vec<String>)> = Vec::new();
            proof {
                assert(blocks_view(v@) =~= Seq::<(Seq<char>, Seq<Seq<char>>)>::empty());
            }
            v
        },
    };
    let ghost bv = blocks_view(blocks@);
    let ghost sv = strings_view(slots@);
    let mut out: Vec<PciRaw> = Vec::new();
    let mut j: usize = 0;
    while j < kept.len()
        invariant
            j <= kept@.len(),
            kept@.len() == slots@.len(),
            kept@.len() == shorts@.len(),
            kept@.map_values(|p: usize| p as int) == pci_kept(srcs@),
            forall|q: int| 0 <= q < pci_kept(srcs@).len() ==> 0 <= #[trigger] pci_kept(srcs@)[q] < srcs@.len()
                && hex16_of(srcs@[pci_kept(srcs@)[q]].vendor) is Some && hex16_of(srcs@[pci_kept(srcs@)[q]].device) is Some,
            forall|q: int| 0 <= q < shorts@.len() ==> #[trigger] shorts@[q]@ == short_of(slots@[q]@),
            sv == strings_view(slots@),
            sv == kept_slots(srcs@),
            bv == blocks_view(blocks@),
            bv == lspci_view(lspci),
            out@.len() == j,
            forall|q: int|
                0 <= q < j ==> #[trigger] raw_ok(
                    srcs@[pci_kept(srcs@)[q]],
                    assigned(sv, bv, q),
                    out@[q],
                ),
        decreases kept@.len() - j,
    {
        let mut mods: Vec<String> = Vec::new();
        let mut b: usize = 0;
        proof {
            assert(bv.subrange(0, 0).len() == 0);
            assert(strings_view(mods@) =~= Seq::<Seq<char>>::empty());
        }
        while b < blocks.len()
            invariant
                b <= blocks@.len(),
                j < kept@.len(),
                kept@.len() == slots@.len(),
                shorts@.len() == slots@.len(),
                forall|q: int| 0 <= q < shorts@.len() ==> #[trigger] shorts@[q]@ == short_of(slots@[q]@),
                sv == strings_view(slots@),
                bv == blocks_view(blocks@),
                strings_view(mods@) == assigned(sv, bv.subrange(0, b as int), j as int),
            decreases blocks@.len() - b,
        {
            proof {
                assert(bv.subrange(0, b + 1).drop_last() =~= bv.subrange(0, b as int));
                assert(bv.subrange(0, b + 1).last() == block_view(blocks@[b as int]));
            }
            let m = first_match_exec(&slots, &shorts, blocks[b].0.as_str());
            if m == j {
                mods = clone_strings(&blocks[b].1);
            }
            b += 1;
        }
        proof {
            assert(bv.subrange(0, bv.len() as int) =~= bv);
            assert(kept@.map_values(|p: usize| p as int)[j as int] == kept@[j as int] as int);
        }
        let pos = kept[j];
        let r = read_device(&srcs[pos], mods);
        match r {
            Some(d) => {
                out.push(d);
            },
            None => {
                proof {
                    assert(false);
                }
            },
        }
        proof {
            assert forall|q: int| 0 <= q < j + 1 implies #[trigger] raw_ok(
                srcs@[pci_kept(srcs@)[q]],
                assigned(sv, bv, q),
                out@[q],
            ) by {
                if q < j {
                }
            }
        }
        j += 1;
    }
    proof {
        lemma_pci_kept_ascends(srcs@);
        if slots_ascend(source_slots(srcs@)) {
            assert forall|a: int, b: int| 0 <= a < b < raw_slots(out@).len() implies text_lt(
                raw_slots(out@)[a],
                raw_slots(out@)[b],
            ) by {
                assert(raw_ok(srcs@[pci_kept(srcs@)[a]], assigned(sv, bv, a), out@[a]));
                assert(raw_ok(srcs@[pci_kept(srcs@)[b]], assigned(sv, bv, b), out@[b]));
                assert(source_slots(srcs@)[pci_kept(srcs@)[a]] == srcs@[pci_kept(srcs@)[a]].slot@);
                assert(source_slots(srcs@)[pci_kept(srcs@)[b]] == srcs@[pci_kept(srcs@)[b]].slot@);
            }
        }
    }
    out
}

// ---------------------------------------------------------------- names

/// The wanted set after the lookups a device list needs are added.
pub open spec fn pci_wanted(raws: Seq<PciRaw>, w: super::hwids::WantedView) -> super::hwids::WantedView
    decreases raws.len(),
{
    if raws.len() == 0 {
        w
    } else {
        let p = pci_wanted(raws.drop_last(), w);
        let d = raws.last();
        super::hwids::WantedView {
            pci_vendors: p.pci_vendors.insert(d.vendor_id as u64),
            pci_devices: p.pci_devices.insert(key2(d.vendor_id, d.device_id)),
            pci_subsystems: match (d.subsystem_vendor_id, d.subsystem_device_id) {
                (Some(sv), Some(sd)) => p.pci_subsystems.insert(
                    key4(d.vendor_id, d.device_id, sv, sd),
                ),
                _ => p.pci_subsystems,
            },
            ..p
        }
    }
}

/// A device's subsystem quad, when it has one.
pub open spec fn has_subsystem(d: PciRaw, sv: u16, sd: u16) -> bool {
    d.subsystem_vendor_id == Some(sv) && d.subsystem_device_id == Some(sd)
}

/// What a device list asks the PCI tables for: every device's vendor, its
/// `(vendor, device)` pair, and, for a device with subsystem ids `(sv, sd)`, the quad
/// `(vendor, device, sv, sd)` in that order, which is the order `pci.ids` nests a
/// subsystem line under its device and `pci_subsystem` looks it up by. Nothing else is
/// added.
pub proof fn lemma_wanted_ids(raws: Seq<PciRaw>, w: super::hwids::WantedView)
    ensures
        forall|v: u16| #[trigger] pci_wanted(raws, w).pci_vendors.contains(v as u64) <==> (w.pci_vendors.contains(v as u64)
            || exists|j: int| 0 <= j < raws.len() && #[trigger] raws[j].vendor_id == v),
        forall|v: u16, d: u16| #[trigger] pci_wanted(raws, w).pci_devices.contains(key2(v, d)) <== (exists|j: int|
            0 <= j < raws.len() && #[trigger] raws[j].vendor_id == v && raws[j].device_id == d),
        forall|j: int, sv: u16, sd: u16| 0 <= j < raws.len() && #[trigger] has_subsystem(raws[j], sv, sd)
            ==> pci_wanted(raws, w).pci_subsystems.contains(key4(raws[j].vendor_id, raws[j].device_id, sv, sd)),
        forall|k: u64| #[trigger] pci_wanted(raws, w).pci_subsystems.contains(k) ==> (w.pci_subsystems.contains(k)
            || exists|j: int, sv: u16, sd: u16| 0 <= j < raws.len() && #[trigger] has_subsystem(raws[j], sv, sd)
                && k == key4(raws[j].vendor_id, raws[j].device_id, sv, sd)),
    decreases raws.len(),
{
    if raws.len() > 0 {
        let r = raws.drop_last();
        let last = raws.last();
        lemma_wanted_ids(r, w);
        let p = pci_wanted(r, w);
        let q = pci_wanted(raws, w);
        assert forall|j: int| 0 <= j < r.len() implies raws[j] == #[trigger] r[j] by {}
        assert forall|v: u16| #[trigger] q.pci_vendors.contains(v as u64) <==> (w.pci_vendors.contains(v as u64)
            || exists|j: int| 0 <= j < raws.len() && #[trigger] raws[j].vendor_id == v) by {
            if q.pci_vendors.contains(v as u64) && !w.pci_vendors.contains(v as u64) {
                if p.pci_vendors.contains(v as u64) {
                    let j = choose|j: int| 0 <= j < r.len() && #[trigger] r[j].vendor_id == v;
                    assert(raws[j].vendor_id == v);
                } else {
                    assert(raws[raws.len() - 1].vendor_id == v);
                }
            }
            if exists|j: int| 0 <= j < raws.len() && #[trigger] raws[j].vendor_id == v {
                let j = choose|j: int| 0 <= j < raws.len() && #[trigger] raws[j].vendor_id == v;
                if j < r.len() {
                    assert(r[j].vendor_id == v);
                }
            }
        }
        assert forall|v: u16, d: u16| #[trigger] q.pci_devices.contains(key2(v, d)) <== (exists|j: int|
            0 <= j < raws.len() && #[trigger] raws[j].vendor_id == v && raws[j].device_id == d) by {
            if exists|j: int| 0 <= j < raws.len() && #[trigger] raws[j].vendor_id == v && raws[j].device_id == d {
                let j = choose|j: int| 0 <= j < raws.len() && #[trigger] raws[j].vendor_id == v && raws[j].device_id == d;
                if j < r.len() {
                    assert(r[j].vendor_id == v && r[j].device_id == d);
                }
            }
        }
        assert forall|j: int, sv: u16, sd: u16| 0 <= j < raws.len() && #[trigger] has_subsystem(raws[j], sv, sd)
            implies q.pci_subsystems.contains(key4(raws[j].vendor_id, raws[j].device_id, sv, sd)) by {
            if j < r.len() {
                assert(has_subsystem(r[j], sv, sd));
            }
        }
        assert forall|k: u64| #[trigger] q.pci_subsystems.contains(k) implies (w.pci_subsystems.contains(k)
            || exists|j: int, sv: u16, sd: u16| 0 <= j < raws.len() && #[trigger] has_subsystem(raws[j], sv, sd)
                && k == key4(raws[j].vendor_id, raws[j].device_id, sv, sd)) by {
            if !w.pci_subsystems.contains(k) {
                if p.pci_subsystems.contains(k) {
                    let (j, sv, sd) = choose|j: int, sv: u16, sd: u16| 0 <= j < r.len() && #[trigger] has_subsystem(r[j], sv, sd)
                        && k == key4(r[j].vendor_id, r[j].device_id, sv, sd);
                    assert(has_subsystem(raws[j], sv, sd));
                } else {
                    let n = raws.len() - 1;
                    let sv = last.subsystem_vendor_id->0;
                    let sd = last.subsystem_device_id->0;
                    assert(has_subsystem(raws[n], sv, sd));
                }
            }
        }
    }
}

/// Records the hwdata lookups this device list needs. pci.ids nests subsystem names
/// under the device, not under the subsystem vendor, so that key is the whole quad.
pub fn collect_wanted(raw: &Vec<PciRaw>, wanted: &mut Wanted)
    ensures
        final(wanted)@ == pci_wanted(raw@, old(wanted)@),
{
    let ghost w0 = wanted@;
    let mut i: usize = 0;
    while i < raw.len()
        invariant
            i <= raw@.len(),
            w0 == old(wanted)@,
            wanted@ == pci_wanted(raw@.subrange(0, i as int), w0),
        decreases raw@.len() - i,
    {
        proof {
            assert(raw@.subrange(0, i + 1).drop_last() =~= raw@.subrange(0, i as int));
            assert(raw@.subrange(0, i + 1).last() == raw@[i as int]);
        }
        let d = &raw[i];
        wanted.add_pci_vendor(d.vendor_id);
        wanted.add_pci_device(d.vendor_id, d.device_id);
        match (d.subsystem_vendor_id, d.subsystem_device_id) {
            (Some(sv), Some(sd)) => {
                wanted.add_pci_subsystem(d.vendor_id, d.device_id, sv, sd);
            },
            _ => {},
        }
        i += 1;
    }
    proof {
        assert(raw@.subrange(0, raw@.len() as int) =~= raw@);
    }
}

/// `d` is `raw` with its hwdata names attached.
pub open spec fn resolved_ok(ids: IdsView, raw: PciRaw, d: PciDevice) -> bool {
    &&& d.raw == raw
    &&& string_opt(d.vendor_name) == ids.pci_vendors.get(raw.vendor_id as u64)
    &&& string_opt(d.device_name) == ids.pci_devices.get(key2(raw.vendor_id, raw.device_id))
    &&& string_opt(d.subsystem_name) == (match (raw.subsystem_vendor_id, raw.subsystem_device_id) {
        (Some(sv), Some(sd)) => ids.pci_subsystems.get(key4(raw.vendor_id, raw.device_id, sv, sd)),
        _ => None,
    })
    &&& string_opt(d.class_name) == compose(
        pci_class_parts(ids, raw.class_base, raw.class_sub, raw.class_progif),
    )
}

fn owned(o: Option<&str>) -> (r: Option<String>)
    ensures
        string_opt(r) == str_opt(o),
{
    match o {
        Some(s) => Some(s.to_owned()),
        None => None,
    }
}

/// Attaches hwdata names to the scanned devices.
pub fn resolve(raw: Vec<PciRaw>, ids: &HwIds) -> (out: Vec<PciDevice>)
    requires
        ids.wf(),
    ensures
        out@.len() == raw@.len(),
        forall|j: int| 0 <= j < out@.len() ==> #[trigger] resolved_ok(ids@, raw@[j], out@[j]),
{
    let ghost orig = raw@;
    let n = raw.len();
    let mut rest = raw;
    let mut out: Vec<PciDevice> = Vec::new();
    let mut i: usize = 0;
    while rest.len() > 0
        invariant
            ids.wf(),
            orig.len() == n,
            i <= orig.len(),
            rest@ == orig.subrange(i as int, orig.len() as int),
            out@.len() == i,
            forall|j: int| 0 <= j < i ==> #[trigger] resolved_ok(ids@, orig[j], out@[j]),
        decreases rest@.len(),
    {
        proof {
            assert(rest@[0] == orig[i as int]);
        }
        let r = rest.remove(0);
        proof {
            assert(rest@ =~= orig.subrange(i + 1, orig.len() as int));
        }
        let subsystem_name = match (r.subsystem_vendor_id, r.subsystem_device_id) {
            (Some(sv), Some(sd)) => owned(ids.pci_subsystem(r.vendor_id, r.device_id, sv, sd)),
            _ => None,
        };
        let d = PciDevice {
            vendor_name: owned(ids.pci_vendor(r.vendor_id)),
            device_name: owned(ids.pci_device(r.vendor_id, r.device_id)),
            subsystem_name,
            class_name: ids.pci_class(r.class_base, r.class_sub, r.class_progif),
            raw: r,
        };
        out.push(d);
        proof {
            assert forall|j: int| 0 <= j < i + 1 implies #[trigger] resolved_ok(ids@, orig[j], out@[j]) by {
                if j < i {
                }
            }
        }
        i += 1;
    }
    proof {
        assert(orig.subrange(i as int, orig.len() as int).len() == 0);
    }
    out
}

// ---------------------------------------------------------------- laws

/// Splitting the class attribute loses nothing of its low 24 bits: the three bytes put
/// back together are the attribute.
pub proof fn lemma_split_class_roundtrip(class: u32)
    ensures
        ({
            let (b, s, p) = class_parts(class);
            ((b as u32) << 16) | ((s as u32) << 8) | (p as u32) == class & 0xff_ffff
        }),
{
    assert((((((class >> 16) & 0xff) as u8) as u32) << 16) | (((((class >> 8) & 0xff) as u8) as u32) << 8) | (((class & 0xff) as u8) as u32) == class & 0xff_ffff) by (bit_vector);
}

} // verus!
