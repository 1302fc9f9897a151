//! Block devices: geometry from `/sys/block`, mount points and free space from
//! `/proc/self/mountinfo` plus `statvfs(3)`.
//!
//! Only real hardware is reported. The reads themselves (the attributes, the holder
//! chains, the mount table, `statvfs`) are the caller's; what is decided from them is
//! here.
use vstd::prelude::*;
use vstd::utf8::encode_utf8;
use vstd::string::StringSliceAdditionalSpecFns;
use crate::text::{
    chars_eq, chars_of, fields, fields_of, has_prefix, lines, lines_of, starts_with, string_of,
    views, Class,
};
use super::util::{
    attr_text, attr_trim, escapes_ok, read_bool, read_u32, read_u64, unescape_octal, unescape_ok,
    unescape_spec, Attr,
};
use super::{Disk, DiskKind, Partition, Usage};

verus! {

// ---------------------------------------------------------------- sizes and kinds

/// `size` in sysfs is always counted in 512-byte sectors, for whole disks and
/// partitions alike, whatever `queue/logical_block_size` says; scaling by the logical
/// block size instead is wrong by a factor of 8 on 4Kn drives. Saturates at `u64::MAX`.
pub fn sectors_to_bytes(sectors: u64) -> (b: u64)
    ensures
        b == sectors_bytes(sectors),
{
    if sectors <= 0x007f_ffff_ffff_ffff {
        sectors * 512
    } else {
        u64::MAX
    }
}

pub open spec fn disk_kind(name: Seq<char>, removable: bool, rotational: Option<bool>) -> DiskKind {
    if starts_with(name, "nvme"@) {
        DiskKind::Nvme
    } else if removable {
        DiskKind::Removable
    } else {
        match rotational {
            Some(true) => DiskKind::Hdd,
            Some(false) => DiskKind::Ssd,
            None => DiskKind::Unknown,
        }
    }
}

/// The name is checked first: NVMe namespaces report rotational 0 and an NVMe in a USB
/// enclosure reports removable, and both are still NVMe.
pub fn classify(name: &str, removable: bool, rotational: Option<bool>) -> (k: DiskKind)
    ensures
        k == disk_kind(name@, removable, rotational),
{
    let n = chars_of(name);
    let p = chars_of("nvme");
    if has_prefix(n.as_slice(), p.as_slice()) {
        DiskKind::Nvme
    } else if removable {
        DiskKind::Removable
    } else {
        match rotational {
            Some(true) => DiskKind::Hdd,
            Some(false) => DiskKind::Ssd,
            None => DiskKind::Unknown,
        }
    }
}

// ---------------------------------------------------------------- mount table

/// One row of `/proc/self/mountinfo`.
pub struct Mount {
    /// `major:minor`, spelled exactly as sysfs spells `<block device>/dev`.
    pub dev: String,
    pub mountpoint: String,
    pub fstype: String,
    pub source: String,
}

pub struct MountView {
    pub dev: Seq<char>,
    pub mountpoint: Seq<char>,
    pub fstype: Seq<char>,
    pub source: Seq<char>,
}

impl View for Mount {
    type V = MountView;

    open spec fn view(&self) -> MountView {
        MountView {
            dev: self.dev@,
            mountpoint: self.mountpoint@,
            fstype: self.fstype@,
            source: self.source@,
        }
    }
}

pub open spec fn mount_views(v: Seq<Mount>) -> Seq<MountView> {
    v.map_values(|m: Mount| m@)
}

/// Index of the first lone `-` at or after `k`, or `fs.len()`.
pub open spec fn dash_from(fs: Seq<Seq<char>>, k: int) -> int
    decreases fs.len() - k,
{
    if k >= fs.len() {
        fs.len() as int
    } else if fs[k] == seq!['-'] {
        k
    } else {
        dash_from(fs, k + 1)
    }
}

/// The raw `(MAJOR:MINOR, MOUNTPOINT, FSTYPE, SOURCE)` fields of a mountinfo line:
///
/// ```text
/// ID PARENT MAJOR:MINOR ROOT MOUNTPOINT OPTIONS [OPTIONAL...] - FSTYPE SOURCE SUPEROPTS
/// ```
///
/// The optional-fields block is variable length and ended by a lone `-`, so everything
/// after OPTIONS is addressed relative to that separator. A line without one, or with
/// fewer than two fields after it, is not a mount.
pub open spec fn mount_fields(line: Seq<char>) -> Option<(Seq<char>, Seq<char>, Seq<char>, Seq<char>)> {
    let fs = fields(line, Class::AsciiWs);
    let sep = dash_from(fs, 6);
    if sep < fs.len() && fs.len() - (sep + 1) >= 2 {
        Some((fs[2], fs[4], fs[sep + 1], fs[sep + 2]))
    } else {
        None
    }
}

/// The mount a line describes; MOUNTPOINT and SOURCE are octal-escaped.
pub open spec fn mount_of(f: (Seq<char>, Seq<char>, Seq<char>, Seq<char>)) -> MountView {
    MountView {
        dev: f.0,
        mountpoint: unescape_spec(f.1),
        fstype: f.2,
        source: unescape_spec(f.3),
    }
}

pub open spec fn mounts_in(ls: Seq<Seq<char>>) -> Seq<MountView>
    decreases ls.len(),
{
    if ls.len() == 0 {
        seq![]
    } else {
        let prev = mounts_in(ls.drop_last());
        match mount_fields(ls.last()) {
            Some(f) => prev.push(mount_of(f)),
            None => prev,
        }
    }
}

/// The escapes in the fields that get decoded can be sliced out.
pub open spec fn mountinfo_ok(text: Seq<char>) -> bool {
    forall|i: int|
        0 <= i < lines(text).len() ==> match #[trigger] mount_fields(lines(text)[i]) {
            Some(f) => unescape_ok(encode_utf8(f.1)) && unescape_ok(encode_utf8(f.3)),
            None => true,
        }
}

/// Whether `parse_mountinfo` can take `text`: the kernel escapes only space, tab,
/// newline and backslash, so in a real mount table every escape can be sliced out.
pub fn mountinfo_usable(text: &str) -> (r: bool)
    ensures
        r == mountinfo_ok(text@),
{
    let c = chars_of(text);
    let ls = lines_of(c.as_slice());
    let ghost all = views(ls@);
    let mut i: usize = 0;
    while i < ls.len()
        invariant
            i <= ls@.len(),
            all == views(ls@),
            all == lines(text@),
            forall|j: int| 0 <= j < i ==> match #[trigger] mount_fields(all[j]) {
                Some(f) => unescape_ok(encode_utf8(f.1)) && unescape_ok(encode_utf8(f.3)),
                None => true,
            },
        decreases ls@.len() - i,
    {
        let fs = fields_of(ls[i].as_slice(), &Class::AsciiWs);
        let sep = dash_index(&fs);
        proof {
            assert(all[i as int] == ls@[i as int]@);
        }
        if sep < fs.len() && fs.len() - (sep + 1) >= 2 {
            let ghost f = (views(fs@)[2], views(fs@)[4], views(fs@)[sep + 1], views(fs@)[sep + 2]);
            proof {
                assert(mount_fields(all[i as int]) == Some(f));
            }
            let mp = string_of(fs[4].as_slice());
            let src = string_of(fs[sep + 2].as_slice());
            if !escapes_ok(mp.as_str()) || !escapes_ok(src.as_str()) {
                return false;
            }
        }
        i += 1;
    }
    true
}

/// Position of the first lone `-` at or after index 6.
fn dash_index(fs: &Vec<Vec<char>>) -> (k: usize)
    ensures
        k == dash_from(views(fs@), 6),
{
    let ghost v = views(fs@);
    if fs.len() <= 6 {
        return fs.len();
    }
    let mut k: usize = 6;
    while k < fs.len()
        invariant
            6 <= k <= fs@.len(),
            v == views(fs@),
            dash_from(v, k as int) == dash_from(v, 6),
        decreases fs@.len() - k,
    {
        if fs[k].len() == 1 && fs[k][0] == '-' {
            proof {
                assert(v[k as int] =~= seq!['-']);
            }
            return k;
        }
        proof {
            if v[k as int] == seq!['-'] {
                assert(v[k as int].len() == 1);
            }
        }
        k += 1;
    }
    k
}

/// Parses `/proc/self/mountinfo`.
///
/// Deliberately not `/proc/mounts`: that table identifies a filesystem only by its source
/// string, so on a LUKS/LVM/md machine the root filesystem appears as `/dev/mapper/xxx`
/// and matches no partition name at all. mountinfo carries the device's `major:minor`,
/// which maps directly onto `<part>/dev`. It also lists bind mounts and btrfs subvolumes
/// as separate rows, which is why a partition has several mount points.
pub fn parse_mountinfo(text: &str) -> (out: Vec<Mount>)
    requires
        mountinfo_ok(text@),
    ensures
        mount_views(out@) == mounts_in(lines(text@)),
{
    let c = chars_of(text);
    let ls = lines_of(c.as_slice());
    let ghost all = views(ls@);
    let mut out: Vec<Mount> = Vec::new();
    let mut i: usize = 0;
    while i < ls.len()
        invariant
            i <= ls@.len(),
            all == views(ls@),
            all == lines(text@),
            mountinfo_ok(text@),
            mount_views(out@) == mounts_in(all.subrange(0, i as int)),
        decreases ls@.len() - i,
    {
        let ghost pre = all.subrange(0, i as int);
        proof {
            assert(all.subrange(0, i + 1).drop_last() =~= pre);
            assert(all.subrange(0, i + 1).last() == ls@[i as int]@);
        }
        let fs = fields_of(ls[i].as_slice(), &Class::AsciiWs);
        let sep = dash_index(&fs);
        if sep < fs.len() && fs.len() - (sep + 1) >= 2 {
            let ghost f = (views(fs@)[2], views(fs@)[4], views(fs@)[sep + 1], views(fs@)[sep + 2]);
            proof {
                assert(mount_fields(all[i as int]) == Some(f));
                assert(unescape_ok(encode_utf8(f.1)) && unescape_ok(encode_utf8(f.3)));
            }
            let mp = string_of(fs[4].as_slice());
            let src = string_of(fs[sep + 2].as_slice());
            let m = Mount {
                dev: string_of(fs[2].as_slice()),
                mountpoint: unescape_octal(mp.as_str()),
                fstype: string_of(fs[sep + 1].as_slice()),
                source: unescape_octal(src.as_str()),
            };
            proof {
                assert(m@ == mount_of(f));
                assert(mount_views(out@.push(m)) =~= mount_views(out@).push(m@));
            }
            out.push(m);
        }
        i += 1;
    }
    proof {
        assert(all.subrange(0, all.len() as int) =~= all);
    }
    out
}

// ---------------------------------------------------------------- partitions

/// Keeps the first occurrence of each string, in order.
pub open spec fn dedup(s: Seq<Seq<char>>) -> Seq<Seq<char>>
    decreases s.len(),
{
    if s.len() == 0 {
        seq![]
    } else {
        let p = dedup(s.drop_last());
        if p.contains(s.last()) {
            p
        } else {
            p.push(s.last())
        }
    }
}

/// The trimmed, non-empty texts among a series of attribute reads.
pub open spec fn attr_texts(a: Seq<Attr>) -> Seq<Seq<char>>
    decreases a.len(),
{
    if a.len() == 0 {
        seq![]
    } else {
        let p = attr_texts(a.drop_last());
        match attr_text(a.last()) {
            Some(t) => p.push(t),
            None => p,
        }
    }
}

/// The block-device mounts of device `d`, in table order. Only sources under `/dev/`
/// count: `statvfs` on a hung NFS/SMB mount blocks indefinitely.
pub open spec fn block_mounts_of(ms: Seq<MountView>, d: Seq<char>) -> Seq<MountView>
    decreases ms.len(),
{
    if ms.len() == 0 {
        seq![]
    } else {
        let prev = block_mounts_of(ms.drop_last(), d);
        let m = ms.last();
        if m.dev == d && starts_with(m.source, "/dev/"@) {
            prev.push(m)
        } else {
            prev
        }
    }
}

/// The block-device mounts of every device number, device by device.
pub open spec fn eligible_mounts(devs: Seq<Seq<char>>, ms: Seq<MountView>) -> Seq<MountView>
    decreases devs.len(),
{
    if devs.len() == 0 {
        seq![]
    } else {
        eligible_mounts(devs.drop_last(), ms) + block_mounts_of(ms, devs.last())
    }
}

/// What the sysfs directory of one partition gave.
pub struct PartitionSource {
    /// The `partition` attribute, the partition's index; directories without one are
    /// the disk's other children (`queue`, `holders`, ...).
    pub index: Attr,
    pub name: String,
    pub size: Attr,
    /// The `dev` attributes of the partition and of every holder stacked on it (LUKS,
    /// LVM, md), in the order the holder chain was walked: mountinfo carries the
    /// mapped device's number, not the partition's.
    pub devs: Vec<Attr>,
}

/// `Usage` out of `statvfs` figures: `f_frsize` is the unit (`f_bsize` when it is 0);
/// used is total minus free, saturating, since FUSE and network filesystems report
/// `f_bfree > f_blocks`.
pub open spec fn sat_mul(a: u64, b: u64) -> u64 {
    if a * b <= u64::MAX {
        (a * b) as u64
    } else {
        u64::MAX
    }
}

pub open spec fn sat_sub(a: u64, b: u64) -> u64 {
    if a >= b {
        (a - b) as u64
    } else {
        0
    }
}

fn mul_sat(a: u64, b: u64) -> (r: u64)
    ensures
        r == sat_mul(a, b),
{
    match a.checked_mul(b) {
        Some(x) => x,
        None => u64::MAX,
    }
}

pub fn usage_of(frsize: u64, bsize: u64, blocks: u64, bfree: u64, bavail: u64) -> (u: Usage)
    ensures
        ({
            let unit = if frsize > 0 {
                frsize
            } else {
                bsize
            };
            &&& u.total == sat_mul(blocks, unit)
            &&& u.used == sat_sub(sat_mul(blocks, unit), sat_mul(bfree, unit))
            &&& u.available == sat_mul(bavail, unit)
        }),
{
    let unit = if frsize > 0 {
        frsize
    } else {
        bsize
    };
    let total = mul_sat(blocks, unit);
    let free = mul_sat(bfree, unit);
    let available = mul_sat(bavail, unit);
    let used = if total >= free {
        total - free
    } else {
        0
    };
    Usage { total, used, available }
}

/// Device numbers of a partition: each distinct one once, in walk order.
pub fn device_numbers(devs: &Vec<Attr>) -> (out: Vec<String>)
    ensures
        out@.map_values(|s: String| s@) == dedup(attr_texts(devs@)),
{
    let mut out: Vec<String> = Vec::new();
    let mut i: usize = 0;
    while i < devs.len()
        invariant
            i <= devs@.len(),
            out@.map_values(|s: String| s@) == dedup(attr_texts(devs@.subrange(0, i as int))),
        decreases devs@.len() - i,
    {
        let ghost pre = attr_texts(devs@.subrange(0, i as int));
        proof {
            assert(devs@.subrange(0, i + 1).drop_last() =~= devs@.subrange(0, i as int));
            assert(devs@.subrange(0, i + 1).last() == devs@[i as int]);
        }
        match attr_trim(&devs[i]) {
            Some(d) => {
                proof {
                    assert(attr_texts(devs@.subrange(0, i + 1)) == pre.push(d@));
                    assert(pre.push(d@).drop_last() =~= pre);
                }
                let dc = chars_of(d.as_str());
                if !string_seen(&out, dc.as_slice()) {
                    proof {
                        assert(out@.push(d).map_values(|s: String| s@) =~= out@.map_values(
                            |s: String| s@,
                        ).push(d@));
                    }
                    out.push(d);
                }
            },
            None => {},
        }
        i += 1;
    }
    proof {
        assert(devs@.subrange(0, devs@.len() as int) =~= devs@);
    }
    out
}

/// Whether `x` is one of `v`.
fn string_seen(v: &Vec<String>, x: &[char]) -> (r: bool)
    ensures
        r == v@.map_values(|s: String| s@).contains(x@),
{
    let ghost vs = v@.map_values(|s: String| s@);
    let mut i: usize = 0;
    while i < v.len()
        invariant
            i <= v@.len(),
            vs == v@.map_values(|s: String| s@),
            forall|j: int| 0 <= j < i ==> vs[j] != x@,
        decreases v@.len() - i,
    {
        let c = chars_of(v[i].as_str());
        if chars_eq(c.as_slice(), x) {
            proof {
                assert(vs[i as int] == x@);
            }
            return true;
        }
        i += 1;
    }
    false
}

/// Indices into `mounts` of the block-device mounts of `devs`, device by device.
fn eligible_indices(devs: &Vec<String>, mounts: &Vec<Mount>) -> (out: Vec<usize>)
    ensures
        out@.map_values(|k: usize| mounts@[k as int]@) == eligible_mounts(
            devs@.map_values(|s: String| s@),
            mount_views(mounts@),
        ),
        forall|j: int| 0 <= j < out@.len() ==> out@[j] < mounts@.len(),
{
    let ghost dv = devs@.map_values(|s: String| s@);
    let ghost mv = mount_views(mounts@);
    let dev_prefix = chars_of("/dev/");
    let mut out: Vec<usize> = Vec::new();
    let mut i: usize = 0;
    while i < devs.len()
        invariant
            i <= devs@.len(),
            dv == devs@.map_values(|s: String| s@),
            mv == mount_views(mounts@),
            dev_prefix@ == "/dev/"@,
            out@.map_values(|k: usize| mounts@[k as int]@) == eligible_mounts(
                dv.subrange(0, i as int),
                mv,
            ),
            forall|j: int| 0 <= j < out@.len() ==> out@[j] < mounts@.len(),
        decreases devs@.len() - i,
    {
        let d = chars_of(devs[i].as_str());
        let ghost before = out@.map_values(|k: usize| mounts@[k as int]@);
        proof {
            assert(dv.subrange(0, i + 1).drop_last() =~= dv.subrange(0, i as int));
            assert(dv.subrange(0, i + 1).last() == d@);
            assert(mv.subrange(0, 0) =~= Seq::<MountView>::empty());
            assert(before =~= before + block_mounts_of(mv.subrange(0, 0), d@));
        }
        let mut j: usize = 0;
        while j < mounts.len()
            invariant
                j <= mounts@.len(),
                mv == mount_views(mounts@),
                dev_prefix@ == "/dev/"@,
                out@.map_values(|k: usize| mounts@[k as int]@) == before + block_mounts_of(
                    mv.subrange(0, j as int),
                    d@,
                ),
                forall|q: int| 0 <= q < out@.len() ==> out@[q] < mounts@.len(),
            decreases mounts@.len() - j,
        {
            proof {
                assert(mv.subrange(0, j + 1).drop_last() =~= mv.subrange(0, j as int));
                assert(mv.subrange(0, j + 1).last() == mounts@[j as int]@);
            }
            let md = chars_of(mounts[j].dev.as_str());
            let ms = chars_of(mounts[j].source.as_str());
            if chars_eq(md.as_slice(), d.as_slice()) && has_prefix(ms.as_slice(), dev_prefix.as_slice()) {
                proof {
                    assert(out@.push(j).map_values(|k: usize| mounts@[k as int]@) =~= out@.map_values(
                        |k: usize| mounts@[k as int]@,
                    ).push(mounts@[j as int]@));
                }
                out.push(j);
            }
            j += 1;
        }
        proof {
            assert(mv.subrange(0, mounts@.len() as int) =~= mv);
        }
        i += 1;
    }
    proof {
        assert(dv.subrange(0, devs@.len() as int) =~= dv);
    }
    out
}

/// The mounts of a partition: the filesystem type of the first block-device mount, and
/// every distinct mount point, in order.
pub open spec fn fstype_of(e: Seq<MountView>) -> Option<Seq<char>> {
    if e.len() > 0 {
        Some(e[0].fstype)
    } else {
        None
    }
}

pub open spec fn mountpoints_of(e: Seq<MountView>) -> Seq<Seq<char>> {
    dedup(e.map_values(|m: MountView| m.mountpoint))
}

pub open spec fn opt_string(o: Option<String>) -> Option<Seq<char>> {
    match o {
        Some(s) => Some(s@),
        None => None,
    }
}

/// A partition as the mount table sees it; `usage` is left to the caller, who asks
/// `statvfs` about the mount points in order and keeps the first answer (bind mounts
/// and subvolumes of one filesystem all report the same figures).
pub fn partition(src: &PartitionSource, mounts: &Vec<Mount>) -> (p: Partition)
    ensures
        partition_ok(*src, mounts@, p),
{
    let devs = device_numbers(&src.devs);
    let idx = eligible_indices(&devs, mounts);
    let ghost e = idx@.map_values(|k: usize| mounts@[k as int]@);
    let fstype = if idx.len() > 0 {
        proof {
            assert(e[0] == mounts@[idx@[0] as int]@);
        }
        Some(mounts[idx[0]].fstype.clone())
    } else {
        None
    };
    let mut mountpoints: Vec<String> = Vec::new();
    let mut i: usize = 0;
    while i < idx.len()
        invariant
            i <= idx@.len(),
            e == idx@.map_values(|k: usize| mounts@[k as int]@),
            forall|j: int| 0 <= j < idx@.len() ==> idx@[j] < mounts@.len(),
            mountpoints@.map_values(|s: String| s@) == dedup(
                e.subrange(0, i as int).map_values(|m: MountView| m.mountpoint),
            ),
        decreases idx@.len() - i,
    {
        let m = &mounts[idx[i]];
        proof {
            assert(e.subrange(0, i + 1).map_values(|m: MountView| m.mountpoint).drop_last()
                =~= e.subrange(0, i as int).map_values(|m: MountView| m.mountpoint));
            assert(e.subrange(0, i + 1).map_values(|m: MountView| m.mountpoint).last()
                == m.mountpoint@);
        }
        let mc = chars_of(m.mountpoint.as_str());
        if !string_seen(&mountpoints, mc.as_slice()) {
            let s = m.mountpoint.clone();
            proof {
                assert(mountpoints@.push(s).map_values(|s: String| s@) =~= mountpoints@.map_values(
                    |s: String| s@,
                ).push(s@));
            }
            mountpoints.push(s);
        }
        i += 1;
    }
    proof {
        assert(e.subrange(0, idx@.len() as int) =~= e);
    }
    let size = match read_u64(&src.size) {
        Some(n) => sectors_to_bytes(n),
        None => 0,
    };
    Partition { name: src.name.clone(), size_bytes: size, fstype, mountpoints, usage: None }
}

pub open spec fn sectors_bytes(n: u64) -> u64 {
    if n * 512 <= u64::MAX {
        (n * 512) as u64
    } else {
        u64::MAX
    }
}

/// A `u64` attribute.
pub open spec fn u64_attr(a: Attr) -> Option<u64> {
    match attr_text(a) {
        Some(t) => crate::num::parse_u64_spec(t),
        None => None,
    }
}

/// A `u32` attribute.
pub open spec fn u32_attr(a: Attr) -> Option<u32> {
    match attr_text(a) {
        Some(t) => crate::num::parse_u32_spec(t),
        None => None,
    }
}

/// A `0`/`1` flag attribute.
pub open spec fn bool_attr(a: Attr) -> Option<bool> {
    match attr_text(a) {
        Some(t) => if t == seq!['0'] {
            Some(false)
        } else if t == seq!['1'] {
            Some(true)
        } else {
            None
        },
        None => None,
    }
}

/// Size attribute in bytes; 0 when unreadable.
pub open spec fn size_of_attr(a: Attr) -> u64 {
    match u64_attr(a) {
        Some(n) => sectors_bytes(n),
        None => 0,
    }
}

/// `p` is the partition `partition` builds from `src`.
pub open spec fn partition_ok(src: PartitionSource, mounts: Seq<Mount>, p: Partition) -> bool {
    let e = eligible_mounts(dedup(attr_texts(src.devs@)), mount_views(mounts));
    &&& p.name@ == src.name@
    &&& p.size_bytes == size_of_attr(src.size)
    &&& opt_string(p.fstype) == fstype_of(e)
    &&& p.mountpoints@.map_values(|s: String| s@) == mountpoints_of(e)
    &&& p.usage is None
}

/// Positions of the sources that are partitions (they have an index).
pub open spec fn kept_positions(ps: Seq<PartitionSource>) -> Seq<usize>
    decreases ps.len(),
{
    if ps.len() == 0 {
        seq![]
    } else {
        let p = kept_positions(ps.drop_last());
        if u32_attr(ps.last().index) is Some {
            p.push((ps.len() - 1) as usize)
        } else {
            p
        }
    }
}

/// Their indices.
pub open spec fn kept_keys(ps: Seq<PartitionSource>) -> Seq<u128>
    decreases ps.len(),
{
    if ps.len() == 0 {
        seq![]
    } else {
        let p = kept_keys(ps.drop_last());
        match u32_attr(ps.last().index) {
            Some(ix) => p.push(ix as u128),
            None => p,
        }
    }
}

proof fn lemma_kept(ps: Seq<PartitionSource>)
    ensures
        kept_positions(ps).len() == kept_keys(ps).len(),
        forall|j: int| 0 <= j < kept_positions(ps).len() ==> #[trigger] kept_positions(ps)[j] < ps.len(),
    decreases ps.len(),
{
    if ps.len() > 0 {
        lemma_kept(ps.drop_last());
    }
}

/// The partitions among a disk's children, sorted by partition number (not by name: a
/// name sort puts p10 before p2), ties in directory order.
pub open spec fn partitions_ok(ps: Seq<PartitionSource>, mounts: Seq<Mount>, out: Seq<Partition>) -> bool {
    let kept = kept_positions(ps);
    &&& out.len() == kept.len()
    &&& exists|order: Seq<usize>|
        crate::order::is_stable_order(kept_keys(ps), order) && forall|j: int|
            0 <= j < out.len() ==> #[trigger] partition_ok(ps[kept[order[j] as int] as int], mounts, out[j])
}

pub fn partitions(parts: &Vec<PartitionSource>, mounts: &Vec<Mount>) -> (out: Vec<Partition>)
    ensures
        partitions_ok(parts@, mounts@, out@),
{
    let mut kept: Vec<usize> = Vec::new();
    let mut keys: Vec<u128> = Vec::new();
    let mut k: usize = 0;
    while k < parts.len()
        invariant
            k <= parts@.len(),
            kept@ == kept_positions(parts@.subrange(0, k as int)),
            keys@ == kept_keys(parts@.subrange(0, k as int)),
        decreases parts@.len() - k,
    {
        proof {
            assert(parts@.subrange(0, k + 1).drop_last() =~= parts@.subrange(0, k as int));
            assert(parts@.subrange(0, k + 1).last() == parts@[k as int]);
        }
        match read_u32(&parts[k].index) {
            Some(ix) => {
                kept.push(k);
                keys.push(ix as u128);
            },
            None => {},
        }
        k += 1;
    }
    proof {
        assert(parts@.subrange(0, parts@.len() as int) =~= parts@);
        lemma_kept(parts@);
    }
    let order = crate::order::stable_order(&keys);
    let mut out: Vec<Partition> = Vec::new();
    let mut j: usize = 0;
    while j < order.len()
        invariant
            j <= order@.len(),
            kept@ == kept_positions(parts@),
            keys@ == kept_keys(parts@),
            kept@.len() == keys@.len(),
            forall|q: int| 0 <= q < kept@.len() ==> #[trigger] kept@[q] < parts@.len(),
            crate::order::is_stable_order(keys@, order@),
            out@.len() == j,
            forall|q: int| 0 <= q < j ==> #[trigger] partition_ok(parts@[kept@[order@[q] as int] as int], mounts@, out@[q]),
        decreases order@.len() - j,
    {
        let pos = kept[order[j]];
        let p = partition(&parts[pos], mounts);
        out.push(p);
        proof {
            assert forall|q: int| 0 <= q < j + 1 implies #[trigger] partition_ok(parts@[kept@[order@[q] as int] as int], mounts@, out@[q]) by {
                if q < j {
                }
            }
        }
        j += 1;
    }
    proof {
        assert(crate::order::is_stable_order(kept_keys(parts@), order@));
    }
    out
}

/// What the sysfs directory of one block device gave.
pub struct DiskSource {
    pub name: String,
    /// A `device` link exists: the block device is backed by real hardware. It is absent
    /// for loop, ram, zram, dm-* and md*, which is exactly the set to drop.
    pub has_device: bool,
    pub removable: Attr,
    pub rotational: Attr,
    pub model: Attr,
    pub serial: Attr,
    /// NVMe spells it `firmware_rev`, the SCSI/ATA stack spells it `rev`.
    pub firmware_rev: Attr,
    pub rev: Attr,
    pub size: Attr,
    pub ro: Attr,
    pub logical_block_size: Attr,
    pub partitions: Vec<PartitionSource>,
}

pub open spec fn or_else_text(a: Option<Seq<char>>, b: Option<Seq<char>>) -> Option<Seq<char>> {
    if a is Some {
        a
    } else {
        b
    }
}

/// `d` is the disk built from `src`.
pub open spec fn disk_ok(src: DiskSource, mounts: Seq<Mount>, d: Disk) -> bool {
    let removable = match bool_attr(src.removable) {
        Some(b) => b,
        None => false,
    };
    &&& d.name@ == src.name@
    &&& d.kind == disk_kind(src.name@, removable, bool_attr(src.rotational))
    &&& opt_string(d.model) == attr_text(src.model)
    &&& opt_string(d.serial) == attr_text(src.serial)
    &&& opt_string(d.firmware) == or_else_text(attr_text(src.firmware_rev), attr_text(src.rev))
    &&& d.size_bytes == size_of_attr(src.size)
    &&& d.read_only == (match bool_attr(src.ro) {
        Some(b) => b,
        None => false,
    })
    &&& d.logical_block_size == u32_attr(src.logical_block_size)
    &&& partitions_ok(src.partitions@, mounts, d.partitions@)
}

/// One block device, or `None` when it is not backed by hardware.
pub fn disk(src: &DiskSource, mounts: &Vec<Mount>) -> (d: Option<Disk>)
    ensures
        d is Some <==> src.has_device,
        d matches Some(x) ==> disk_ok(*src, mounts@, x),
{
    if !src.has_device {
        return None;
    }
    let removable = match read_bool(&src.removable) {
        Some(b) => b,
        None => false,
    };
    let rotational = read_bool(&src.rotational);
    let kind = classify(src.name.as_str(), removable, rotational);
    let firmware = match attr_trim(&src.firmware_rev) {
        Some(f) => Some(f),
        None => attr_trim(&src.rev),
    };
    let size_bytes = match read_u64(&src.size) {
        Some(n) => sectors_to_bytes(n),
        None => 0,
    };
    let read_only = match read_bool(&src.ro) {
        Some(b) => b,
        None => false,
    };
    Some(Disk {
        name: src.name.clone(),
        model: attr_trim(&src.model),
        serial: attr_trim(&src.serial),
        firmware,
        size_bytes,
        kind,
        read_only,
        logical_block_size: read_u32(&src.logical_block_size),
        partitions: partitions(&src.partitions, mounts),
    })
}

/// Positions of the devices backed by hardware.
pub open spec fn hardware_positions(ds: Seq<DiskSource>) -> Seq<int>
    decreases ds.len(),
{
    if ds.len() == 0 {
        seq![]
    } else {
        let p = hardware_positions(ds.drop_last());
        if ds.last().has_device {
            p.push(ds.len() - 1)
        } else {
            p
        }
    }
}

/// The mount table `probe` works from: empty when it could not be read.
pub open spec fn mounts_from(mountinfo: Option<Seq<char>>) -> Seq<MountView> {
    match mountinfo {
        Some(t) => mounts_in(lines(t)),
        None => seq![],
    }
}

pub open spec fn opt_str_view(o: Option<&str>) -> Option<Seq<char>> {
    match o {
        Some(s) => Some(s@),
        None => None,
    }
}

/// Every block device backed by hardware, in the order given, with its partitions
/// matched against the mount table (`None` when it could not be read).
pub fn probe(disks: &Vec<DiskSource>, mountinfo: Option<&str>) -> (out: Vec<Disk>)
    requires
        mountinfo matches Some(t) ==> mountinfo_ok(t@),
    ensures
        out@.len() == hardware_positions(disks@).len(),
        exists|mounts: Seq<Mount>|
            mount_views(mounts) == mounts_from(opt_str_view(mountinfo)) && forall|j: int|
                0 <= j < out@.len() ==> #[trigger] disk_ok(
                    disks@[hardware_positions(disks@)[j]],
                    mounts,
                    out@[j],
                ),
{
    let mounts = match mountinfo {
        Some(t) => parse_mountinfo(t),
        None => {
            let v: Vec<Mount> = Vec::new();
            proof {
                assert(mount_views(v@) =~= Seq::<MountView>::empty());
            }
            v
        },
    };
    let mut out: Vec<Disk> = Vec::new();
    let mut i: usize = 0;
    while i < disks.len()
        invariant
            i <= disks@.len(),
            out@.len() == hardware_positions(disks@.subrange(0, i as int)).len(),
            forall|j: int|
                0 <= j < out@.len() ==> #[trigger] disk_ok(
                    disks@[hardware_positions(disks@.subrange(0, i as int))[j]],
                    mounts@,
                    out@[j],
                ),
            forall|j: int| 0 <= j < hardware_positions(disks@.subrange(0, i as int)).len() ==>
                #[trigger] hardware_positions(disks@.subrange(0, i as int))[j] < i,
        decreases disks@.len() - i,
    {
        let ghost hp = hardware_positions(disks@.subrange(0, i as int));
        proof {
            assert(disks@.subrange(0, i + 1).drop_last() =~= disks@.subrange(0, i as int));
            assert(disks@.subrange(0, i + 1).last() == disks@[i as int]);
        }
        match disk(&disks[i], &mounts) {
            Some(d) => {
                out.push(d);
                proof {
                    let hp2 = hardware_positions(disks@.subrange(0, i + 1));
                    assert(hp2 == hp.push(i as int));
                    assert forall|j: int| 0 <= j < out@.len() implies #[trigger] disk_ok(
                        disks@[hp2[j]],
                        mounts@,
                        out@[j],
                    ) by {
                        if j < hp.len() {
                            assert(hp2[j] == hp[j]);
                        }
                    }
                }
            },
            None => {},
        }
        i += 1;
    }
    proof {
        assert(disks@.subrange(0, disks@.len() as int) =~= disks@);
    }
    out
}

// ---------------------------------------------------------------- laws

/// Every mount a partition is matched with is a mount of one of its device numbers
/// whose source is a block device, so `statvfs` is never asked about a network mount.
pub proof fn lemma_eligible_are_block_devices(devs: Seq<Seq<char>>, ms: Seq<MountView>)
    ensures
        forall|j: int|
            0 <= j < eligible_mounts(devs, ms).len() ==> starts_with(
                #[trigger] eligible_mounts(devs, ms)[j].source,
                "/dev/"@,
            ) && devs.contains(eligible_mounts(devs, ms)[j].dev),
    decreases devs.len(),
{
    if devs.len() > 0 {
        lemma_eligible_are_block_devices(devs.drop_last(), ms);
        lemma_block_mounts(ms, devs.last());
        let a = eligible_mounts(devs.drop_last(), ms);
        let b = block_mounts_of(ms, devs.last());
        assert forall|j: int| 0 <= j < eligible_mounts(devs, ms).len() implies starts_with(
            #[trigger] eligible_mounts(devs, ms)[j].source,
            "/dev/"@,
        ) && devs.contains(eligible_mounts(devs, ms)[j].dev) by {
            if j < a.len() {
                assert(eligible_mounts(devs, ms)[j] == a[j]);
                assert(starts_with(a[j].source, "/dev/"@));
                assert(devs.drop_last().contains(a[j].dev));
                let k = choose|k: int| 0 <= k < devs.drop_last().len() && devs.drop_last()[k] == a[j].dev;
                assert(devs[k] == a[j].dev);
            } else {
                assert(starts_with(b[j - a.len()].source, "/dev/"@));
                assert(eligible_mounts(devs, ms)[j] == b[j - a.len()]);
                assert(devs[devs.len() - 1] == devs.last());
            }
        }
    }
}

proof fn lemma_block_mounts(ms: Seq<MountView>, d: Seq<char>)
    ensures
        forall|j: int|
            0 <= j < block_mounts_of(ms, d).len() ==> starts_with(
                #[trigger] block_mounts_of(ms, d)[j].source,
                "/dev/"@,
            ) && block_mounts_of(ms, d)[j].dev == d,
    decreases ms.len(),
{
    if ms.len() > 0 {
        lemma_block_mounts(ms.drop_last(), d);
        let prev = block_mounts_of(ms.drop_last(), d);
        assert forall|j: int| 0 <= j < block_mounts_of(ms, d).len() implies starts_with(
            #[trigger] block_mounts_of(ms, d)[j].source,
            "/dev/"@,
        ) && block_mounts_of(ms, d)[j].dev == d by {
            if j < prev.len() {
                assert(block_mounts_of(ms, d)[j] == prev[j]);
                assert(starts_with(prev[j].source, "/dev/"@));
            }
        }
    }
}

/// A partition lists each of its mount points once.
pub proof fn lemma_dedup_distinct(s: Seq<Seq<char>>)
    ensures
        dedup(s).no_duplicates(),
        forall|x: Seq<char>| dedup(s).contains(x) <==> s.contains(x),
    decreases s.len(),
{
    if s.len() > 0 {
        lemma_dedup_distinct(s.drop_last());
        let p = dedup(s.drop_last());
        let l = s.last();
        assert forall|x: Seq<char>| dedup(s).contains(x) <==> s.contains(x) by {
            if s.contains(x) {
                let k = choose|k: int| 0 <= k < s.len() && s[k] == x;
                if k < s.len() - 1 {
                    assert(s.drop_last()[k] == x);
                    assert(s.drop_last().contains(x));
                    assert(p.contains(x));
                    let m = choose|m: int| 0 <= m < p.len() && p[m] == x;
                    if !p.contains(l) {
                        assert(p.push(l)[m] == x);
                    }
                } else {
                    assert(x == l);
                    if !p.contains(l) {
                        assert(p.push(l)[p.len() as int] == l);
                    }
                }
                assert(dedup(s).contains(x));
            }
            if dedup(s).contains(x) {
                if p.contains(x) {
                    assert(s.drop_last().contains(x));
                    let k = choose|k: int| 0 <= k < s.drop_last().len() && s.drop_last()[k] == x;
                    assert(s[k] == x);
                } else {
                    let m = choose|m: int| 0 <= m < dedup(s).len() && dedup(s)[m] == x;
                    assert(dedup(s) == p.push(l));
                    if m < p.len() {
                        assert(p[m] == x);
                    }
                    assert(x == l);
                    assert(s[s.len() - 1] == x);
                }
                assert(s.contains(x));
            }
        }
    }
}

} // verus!
