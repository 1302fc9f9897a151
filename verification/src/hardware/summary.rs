//! The headline "what is this machine" block: identity, OS, CPU, memory, session.
//!
//! Everything comes from `/sys/class/dmi/id`, `/proc` and the environment, read by the
//! caller. GPU and disk facts are not re-probed: they are passed in from the modules
//! that already did the work.
use vstd::prelude::*;
use crate::num::{parse_u32, parse_u32_spec, parse_u64, parse_u64_spec};
use crate::text::{
    ascii_lower, chars_eq, chars_of, fields, fields_of, has_prefix, lines, lines_of,
    slice_to_vec, split, split_char, split_once, split_once_at, string_of, to_ascii_lower,
    trim_ws, trimmed, views, Class,
};
use super::hwids::string_opt;
use super::util::{attr_text, attr_trim, read_u64, Attr};
use super::{Cpu, DisplayServer, Value, ValueView};

verus! {

// ---------------------------------------------------------------- cpuinfo

/// What `/proc/cpuinfo` says about the CPU as a whole.
#[derive(Debug, PartialEq, Eq)]
pub struct CpuText {
    pub model: Option<String>,
    pub vendor: Option<String>,
    /// Number of `processor` lines, modulo 2^32.
    pub threads: u32,
}

pub struct CpuTextView {
    pub model: Option<Seq<char>>,
    pub vendor: Option<Seq<char>>,
    pub threads: nat,
}

/// One line of `/proc/cpuinfo`: `processor` lines are counted, and the first non-empty
/// `model name` and `vendor_id` are kept (every per-CPU block repeats them).
pub open spec fn cpu_step(acc: CpuTextView, line: Seq<char>) -> CpuTextView {
    match split_once(line, ':') {
        Some((k, v)) => {
            let key = trim_ws(k);
            let value = trim_ws(v);
            if key == "processor"@ {
                CpuTextView { threads: acc.threads + 1, ..acc }
            } else if key == "model name"@ {
                if acc.model is None && value.len() > 0 {
                    CpuTextView { model: Some(value), ..acc }
                } else {
                    acc
                }
            } else if key == "vendor_id"@ {
                if acc.vendor is None && value.len() > 0 {
                    CpuTextView { vendor: Some(value), ..acc }
                } else {
                    acc
                }
            } else {
                acc
            }
        },
        None => acc,
    }
}

pub open spec fn cpu_text(ls: Seq<Seq<char>>) -> CpuTextView
    decreases ls.len(),
{
    if ls.len() == 0 {
        CpuTextView { model: None, vendor: None, threads: 0 }
    } else {
        cpu_step(cpu_text(ls.drop_last()), ls.last())
    }
}

pub fn parse_cpuinfo(contents: &str) -> (out: CpuText)
    ensures
        ({
            let t = cpu_text(lines(contents@));
            &&& string_opt(out.model) == t.model
            &&& string_opt(out.vendor) == t.vendor
            &&& out.threads == t.threads % 0x1_0000_0000
        }),
{
    let c = chars_of(contents);
    let ls = lines_of(c.as_slice());
    let ghost all = views(ls@);
    let processor = chars_of("processor");
    let model_name = chars_of("model name");
    let vendor_id = chars_of("vendor_id");
    let mut model: Option<String> = None;
    let mut vendor: Option<String> = None;
    let mut threads: u32 = 0;
    let mut i: usize = 0;
    while i < ls.len()
        invariant
            i <= ls@.len(),
            all == views(ls@),
            processor@ == "processor"@,
            model_name@ == "model name"@,
            vendor_id@ == "vendor_id"@,
            ({
                let t = cpu_text(all.subrange(0, i as int));
                &&& string_opt(model) == t.model
                &&& string_opt(vendor) == t.vendor
                &&& threads == t.threads % 0x1_0000_0000
            }),
        decreases ls@.len() - i,
    {
        proof {
            assert(all.subrange(0, i + 1).drop_last() =~= all.subrange(0, i as int));
            assert(all.subrange(0, i + 1).last() == ls@[i as int]@);
        }
        let line = ls[i].as_slice();
        match split_once_at(line, ':') {
            Some(j) => {
                let n = line.len();
                let k = slice_to_vec(line, 0, j);
                let v = slice_to_vec(line, j + 1, n);
                let key = trimmed(k.as_slice(), &Class::Ws);
                let value = trimmed(v.as_slice(), &Class::Ws);
                if chars_eq(key.as_slice(), processor.as_slice()) {
                    threads = threads.wrapping_add(1);
                    proof {
                        let t = cpu_text(all.subrange(0, i as int)).threads;
                        assert(threads == (t + 1) % 0x1_0000_0000) by (nonlinear_arith)
                            requires
                                threads == ((t % 0x1_0000_0000) + 1) % 0x1_0000_0000,
                        ;
                    }
                } else if chars_eq(key.as_slice(), model_name.as_slice()) {
                    if model.is_none() && value.len() > 0 {
                        model = Some(string_of(value.as_slice()));
                    }
                } else if chars_eq(key.as_slice(), vendor_id.as_slice()) {
                    if vendor.is_none() && value.len() > 0 {
                        vendor = Some(string_of(value.as_slice()));
                    }
                }
            },
            None => {},
        }
        i += 1;
    }
    proof {
        assert(all.subrange(0, all.len() as int) =~= all);
    }
    CpuText { model, vendor, threads }
}

// ---------------------------------------------------------------- cpu lists

/// `lo..=hi`.
pub open spec fn range_seq(lo: u32, hi: u32) -> Seq<u32> {
    Seq::new((hi - lo + 1) as nat, |i: int| (lo + i) as u32)
}

/// One comma-separated part of a CPU list: `5`, or a range `0-31`. A reversed range,
/// or one wider than 65536 CPUs (a corrupt or hostile list, far past the kernel's own
/// ceiling), is dropped rather than expanded; so is anything that does not parse.
pub open spec fn cpu_part(part: Seq<char>) -> Seq<u32> {
    let p = trim_ws(part);
    if p.len() == 0 {
        seq![]
    } else {
        match split_once(p, '-') {
            Some((lo, hi)) => match (parse_u32_spec(trim_ws(lo)), parse_u32_spec(trim_ws(hi))) {
                (Some(l), Some(h)) => if l > h || h - l > 65535 {
                    seq![]
                } else {
                    range_seq(l, h)
                },
                _ => seq![],
            },
            None => match parse_u32_spec(p) {
                Some(n) => seq![n],
                None => seq![],
            },
        }
    }
}

pub open spec fn cpu_list(parts: Seq<Seq<char>>) -> Seq<u32>
    decreases parts.len(),
{
    if parts.len() == 0 {
        seq![]
    } else {
        cpu_list(parts.drop_last()) + cpu_part(parts.last())
    }
}

fn cpu_part_exec(part: &[char], out: &mut Vec<u32>)
    ensures
        final(out)@ == old(out)@ + cpu_part(part@),
{
    let p = trimmed(part, &Class::Ws);
    if p.len() == 0 {
        proof {
            assert(old(out)@ + cpu_part(part@) =~= old(out)@);
        }
        return;
    }
    match split_once_at(p.as_slice(), '-') {
        Some(j) => {
            let n = p.len();
            let lo_c = slice_to_vec(p.as_slice(), 0, j);
            let hi_c = slice_to_vec(p.as_slice(), j + 1, n);
            let lo_t = trimmed(lo_c.as_slice(), &Class::Ws);
            let hi_t = trimmed(hi_c.as_slice(), &Class::Ws);
            match (parse_u32(lo_t.as_slice()), parse_u32(hi_t.as_slice())) {
                (Some(l), Some(h)) => {
                    if l > h || h - l > 65535 {
                        proof {
                            assert(old(out)@ + cpu_part(part@) =~= old(out)@);
                        }
                        return;
                    }
                    let ghost start = out@;
                    let mut x: u64 = l as u64;
                    while x <= h as u64
                        invariant
                            l <= x <= h as u64 + 1,
                            h - l <= 65535,
                            out@ == start + range_seq(l, h).subrange(0, x - l),
                        decreases h as u64 + 1 - x,
                    {
                        proof {
                            assert(range_seq(l, h).subrange(0, x + 1 - l) =~= range_seq(l, h).subrange(0, x - l).push(x as u32));
                        }
                        out.push(x as u32);
                        x += 1;
                    }
                    proof {
                        assert(range_seq(l, h).subrange(0, h + 1 - l) =~= range_seq(l, h));
                    }
                },
                _ => {
                    proof {
                        assert(old(out)@ + cpu_part(part@) =~= old(out)@);
                    }
                },
            }
        },
        None => match parse_u32(p.as_slice()) {
            Some(v) => {
                out.push(v);
                proof {
                    assert(out@ =~= old(out)@ + cpu_part(part@));
                }
            },
            None => {
                proof {
                    assert(old(out)@ + cpu_part(part@) =~= old(out)@);
                }
            },
        },
    }
}

/// Expands the kernel's CPU range-list syntax (`0-31`, `0-3,8-11`, `5`).
pub fn parse_cpu_list(list: &str) -> (out: Vec<u32>)
    ensures
        out@ == cpu_list(split(list@, ',')),
{
    let c = chars_of(list);
    let parts = split_char(c.as_slice(), ',');
    let ghost pv = views(parts@);
    let mut out: Vec<u32> = Vec::new();
    let mut i: usize = 0;
    while i < parts.len()
        invariant
            i <= parts@.len(),
            pv == views(parts@),
            pv == split(list@, ','),
            out@ == cpu_list(pv.subrange(0, i as int)),
        decreases parts@.len() - i,
    {
        proof {
            assert(pv.subrange(0, i + 1).drop_last() =~= pv.subrange(0, i as int));
            assert(pv.subrange(0, i + 1).last() == parts@[i as int]@);
        }
        cpu_part_exec(parts[i].as_slice(), &mut out);
        i += 1;
    }
    proof {
        assert(pv.subrange(0, pv.len() as int) =~= pv);
    }
    out
}

/// CPU numbers out of `cpuN` directory names; `cpufreq` and `cpuidle` do not parse and
/// drop out.
pub open spec fn cpu_dir_numbers(names: Seq<Seq<char>>) -> Seq<u32>
    decreases names.len(),
{
    if names.len() == 0 {
        seq![]
    } else {
        let p = cpu_dir_numbers(names.drop_last());
        let n = names.last();
        if crate::text::starts_with(n, "cpu"@) {
            match parse_u32_spec(n.subrange(3, n.len() as int)) {
                Some(k) => p.push(k),
                None => p,
            }
        } else {
            p
        }
    }
}

/// The CPUs present: the `present` list when it names any, else the `cpuN`
/// directories (for the odd kernel or container where `present` is missing).
pub open spec fn present_spec(present: Attr, names: Seq<Seq<char>>) -> Seq<u32> {
    match attr_text(present) {
        Some(l) => if cpu_list(split(l, ',')).len() > 0 {
            cpu_list(split(l, ','))
        } else {
            cpu_dir_numbers(names)
        },
        None => cpu_dir_numbers(names),
    }
}

pub fn present_cpus(present: &Attr, names: &Vec<String>) -> (out: Vec<u32>)
    ensures
        out@ == present_spec(*present, names@.map_values(|s: String| s@)),
{
    match attr_trim(present) {
        Some(l) => {
            let cpus = parse_cpu_list(l.as_str());
            if cpus.len() > 0 {
                return cpus;
            }
        },
        None => {},
    }
    let ghost nv = names@.map_values(|s: String| s@);
    let cpu = chars_of("cpu");
    proof {
        reveal_strlit("cpu");
    }
    let mut out: Vec<u32> = Vec::new();
    let mut i: usize = 0;
    while i < names.len()
        invariant
            i <= names@.len(),
            nv == names@.map_values(|s: String| s@),
            cpu@ == "cpu"@,
            cpu@.len() == 3,
            out@ == cpu_dir_numbers(nv.subrange(0, i as int)),
        decreases names@.len() - i,
    {
        proof {
            assert(nv.subrange(0, i + 1).drop_last() =~= nv.subrange(0, i as int));
            assert(nv.subrange(0, i + 1).last() == names@[i as int]@);
        }
        let n = chars_of(names[i].as_str());
        if has_prefix(n.as_slice(), cpu.as_slice()) {
            let len = n.len();
            let rest = slice_to_vec(n.as_slice(), 3, len);
            match parse_u32(rest.as_slice()) {
                Some(k) => {
                    out.push(k);
                },
                None => {},
            }
        }
        i += 1;
    }
    proof {
        assert(nv.subrange(0, nv.len() as int) =~= nv);
    }
    out
}

// ---------------------------------------------------------------- topology

/// The distinct values of `s`, each once, in order of first appearance.
pub open spec fn distinct<T>(s: Seq<T>) -> Seq<T>
    decreases s.len(),
{
    if s.len() == 0 {
        seq![]
    } else {
        let p = distinct(s.drop_last());
        if p.contains(s.last()) {
            p
        } else {
            p.push(s.last())
        }
    }
}

/// The `(physical_package_id, core_id)` pairs of the CPUs that have both; offline CPUs
/// are listed present but expose no topology, and must not count as cores of their own.
pub open spec fn topo_pairs(t: Seq<(Option<i64>, Option<i64>)>) -> Seq<(i64, i64)>
    decreases t.len(),
{
    if t.len() == 0 {
        seq![]
    } else {
        let p = topo_pairs(t.drop_last());
        match t.last() {
            (Some(a), Some(b)) => p.push((a, b)),
            _ => p,
        }
    }
}

pub open spec fn count_spec(n: nat) -> Option<u32> {
    if 0 < n <= u32::MAX {
        Some(n as u32)
    } else {
        None
    }
}

pub fn count(len: usize) -> (r: Option<u32>)
    ensures
        r == count_spec(len as nat),
{
    if len > 0 && len <= 0xffff_ffff {
        Some(len as u32)
    } else {
        None
    }
}

/// Physical cores and sockets: the distinct `(package, core)` pairs and the distinct
/// packages. `cpu cores` in /proc/cpuinfo is a per-package number that cannot describe
/// a hybrid part, so it is not used.
pub fn topology(t: &Vec<(Option<i64>, Option<i64>)>) -> (r: (Option<u32>, Option<u32>))
    ensures
        r.0 == count_spec(distinct(topo_pairs(t@)).len()),
        r.1 == count_spec(distinct(topo_pairs(t@).map_values(|p: (i64, i64)| p.0)).len()),
{
    let mut cores: Vec<(i64, i64)> = Vec::new();
    let mut packages: Vec<i64> = Vec::new();
    let mut i: usize = 0;
    while i < t.len()
        invariant
            i <= t@.len(),
            cores@ == distinct(topo_pairs(t@.subrange(0, i as int))),
            packages@ == distinct(topo_pairs(t@.subrange(0, i as int)).map_values(|p: (i64, i64)| p.0)),
        decreases t@.len() - i,
    {
        let ghost tp = topo_pairs(t@.subrange(0, i as int));
        proof {
            assert(t@.subrange(0, i + 1).drop_last() =~= t@.subrange(0, i as int));
            assert(t@.subrange(0, i + 1).last() == t@[i as int]);
        }
        match t[i] {
            (Some(a), Some(b)) => {
                proof {
                    let np = topo_pairs(t@.subrange(0, i + 1));
                    assert(np == tp.push((a, b)));
                    assert(np.drop_last() =~= tp);
                    assert(np.map_values(|p: (i64, i64)| p.0) =~= tp.map_values(|p: (i64, i64)| p.0).push(a));
                    assert(np.map_values(|p: (i64, i64)| p.0).drop_last() =~= tp.map_values(|p: (i64, i64)| p.0));
                }
                if !pair_seen(&cores, a, b) {
                    cores.push((a, b));
                }
                if !int_seen(&packages, a) {
                    packages.push(a);
                }
            },
            _ => {},
        }
        i += 1;
    }
    proof {
        assert(t@.subrange(0, t@.len() as int) =~= t@);
    }
    (count(cores.len()), count(packages.len()))
}

fn pair_seen(v: &Vec<(i64, i64)>, a: i64, b: i64) -> (r: bool)
    ensures
        r == v@.contains((a, b)),
{
    let mut i: usize = 0;
    while i < v.len()
        invariant
            i <= v@.len(),
            forall|j: int| 0 <= j < i ==> v@[j] != (a, b),
        decreases v@.len() - i,
    {
        if v[i].0 == a && v[i].1 == b {
            proof {
                assert(v@[i as int] == (a, b));
            }
            return true;
        }
        i += 1;
    }
    false
}

fn int_seen(v: &Vec<i64>, a: i64) -> (r: bool)
    ensures
        r == v@.contains(a),
{
    let mut i: usize = 0;
    while i < v.len()
        invariant
            i <= v@.len(),
            forall|j: int| 0 <= j < i ==> v@[j] != a,
        decreases v@.len() - i,
    {
        if v[i] == a {
            proof {
                assert(v@[i as int] == a);
            }
            return true;
        }
        i += 1;
    }
    false
}

// ---------------------------------------------------------------- frequency

pub open spec fn u64_of(a: Attr) -> Option<u64> {
    match attr_text(a) {
        Some(t) => parse_u64_spec(t),
        None => None,
    }
}

pub open spec fn first_u64(reads: Seq<Attr>) -> Option<u64>
    decreases reads.len(),
{
    if reads.len() == 0 {
        None
    } else {
        match u64_of(reads[0]) {
            Some(v) => Some(v),
            None => first_u64(reads.drop_first()),
        }
    }
}

/// Nominal maximum clock, in kHz: cpu0's `cpuinfo_max_freq` first, and the present
/// CPUs' (in order) only as a fallback, because cpu0 can be offline. `cpufreq/` is
/// absent entirely under VMs and with some drivers, so `None` is ordinary.
pub fn max_freq_khz(cpu0: &Attr, others: &Vec<Attr>) -> (r: Option<u64>)
    ensures
        r == (match u64_of(*cpu0) {
            Some(v) => Some(v),
            None => first_u64(others@),
        }),
{
    match read_u64(cpu0) {
        Some(v) => return Some(v),
        None => {},
    }
    let mut i: usize = 0;
    proof {
        assert(others@.subrange(0, others@.len() as int) =~= others@);
    }
    while i < others.len()
        invariant
            i <= others@.len(),
            u64_of(*cpu0) is None,
            first_u64(others@.subrange(i as int, others@.len() as int)) == first_u64(others@),
        decreases others@.len() - i,
    {
        proof {
            let t = others@.subrange(i as int, others@.len() as int);
            assert(t.drop_first() =~= others@.subrange(i + 1, others@.len() as int));
            assert(t[0] == others@[i as int]);
        }
        match read_u64(&others[i]) {
            Some(v) => return Some(v),
            None => {},
        }
        i += 1;
    }
    None
}

// ---------------------------------------------------------------- session

pub open spec fn server_of(session_type: Option<Seq<char>>, wayland_display: bool, display: bool) -> DisplayServer {
    let from_type = match session_type {
        Some(k) => {
            let l = ascii_lower(k);
            if l == "wayland"@ {
                Some(DisplayServer::Wayland)
            } else if l == "x11"@ {
                Some(DisplayServer::X11)
            } else if l == "tty"@ {
                Some(DisplayServer::Tty)
            } else {
                None
            }
        },
        None => None,
    };
    match from_type {
        Some(s) => s,
        None => if wayland_display {
            DisplayServer::Wayland
        } else if display {
            DisplayServer::X11
        } else {
            DisplayServer::Unknown
        },
    }
}

/// The display server of the session: `XDG_SESSION_TYPE` when it names one (display
/// managers also emit `unspecified`, which is treated as unset), else whichever of
/// `WAYLAND_DISPLAY` and `DISPLAY` is set. The arguments are the variables that are
/// set and non-empty.
pub fn display_server(session_type: Option<&str>, wayland_display: bool, display: bool) -> (r: DisplayServer)
    ensures
        r == server_of(super::hwids::str_opt(session_type), wayland_display, display),
{
    match session_type {
        Some(k) => {
            let c = chars_of(k);
            let l = to_ascii_lower(c.as_slice());
            let w = chars_of("wayland");
            let x = chars_of("x11");
            let t = chars_of("tty");
            if chars_eq(l.as_slice(), w.as_slice()) {
                return DisplayServer::Wayland;
            } else if chars_eq(l.as_slice(), x.as_slice()) {
                return DisplayServer::X11;
            } else if chars_eq(l.as_slice(), t.as_slice()) {
                return DisplayServer::Tty;
            }
        },
        None => {},
    }
    if wayland_display {
        DisplayServer::Wayland
    } else if display {
        DisplayServer::X11
    } else {
        DisplayServer::Unknown
    }
}

// ---------------------------------------------------------------- meminfo

pub open spec fn sat_kib(v: u64) -> u64 {
    if v * 1024 <= u64::MAX {
        (v * 1024) as u64
    } else {
        u64::MAX
    }
}

/// A meminfo value: `kB` (any case) means KiB, so the factor is 1024, not 1000; a value
/// without a unit column is already a byte count.
pub open spec fn meminfo_value(rest: Seq<char>) -> Option<u64> {
    let fs = fields(rest, Class::Ws);
    if fs.len() == 0 {
        None
    } else {
        match parse_u64_spec(fs[0]) {
            Some(v) => Some(if fs.len() > 1 && ascii_lower(fs[1]) == "kb"@ {
                sat_kib(v)
            } else {
                v
            }),
            None => None,
        }
    }
}

/// One line of `/proc/meminfo`: `MemTotal` and `SwapTotal` are taken, a later line
/// replacing an earlier one.
pub open spec fn mem_step(acc: (Option<u64>, Option<u64>), line: Seq<char>) -> (Option<u64>, Option<u64>) {
    match split_once(line, ':') {
        Some((k, rest)) => {
            let key = trim_ws(k);
            if key == "MemTotal"@ {
                match meminfo_value(rest) {
                    Some(v) => (Some(v), acc.1),
                    None => acc,
                }
            } else if key == "SwapTotal"@ {
                match meminfo_value(rest) {
                    Some(v) => (acc.0, Some(v)),
                    None => acc,
                }
            } else {
                acc
            }
        },
        None => acc,
    }
}

pub open spec fn meminfo_spec(ls: Seq<Seq<char>>) -> (Option<u64>, Option<u64>)
    decreases ls.len(),
{
    if ls.len() == 0 {
        (None, None)
    } else {
        mem_step(meminfo_spec(ls.drop_last()), ls.last())
    }
}

fn meminfo_value_exec(rest: &[char]) -> (r: Option<u64>)
    ensures
        r == meminfo_value(rest@),
{
    let fs = fields_of(rest, &Class::Ws);
    if fs.len() == 0 {
        return None;
    }
    match parse_u64(fs[0].as_slice()) {
        Some(v) => {
            if fs.len() > 1 {
                let u = to_ascii_lower(fs[1].as_slice());
                let kb = chars_of("kb");
                if chars_eq(u.as_slice(), kb.as_slice()) {
                    return Some(match v.checked_mul(1024) {
                        Some(x) => x,
                        None => u64::MAX,
                    });
                }
            }
            Some(v)
        },
        None => None,
    }
}

/// Total RAM and swap, in bytes.
pub fn parse_meminfo(contents: &str) -> (r: (Option<u64>, Option<u64>))
    ensures
        r == meminfo_spec(lines(contents@)),
{
    let c = chars_of(contents);
    let ls = lines_of(c.as_slice());
    let ghost all = views(ls@);
    let mem_key = chars_of("MemTotal");
    let swap_key = chars_of("SwapTotal");
    let mut acc: (Option<u64>, Option<u64>) = (None, None);
    let mut i: usize = 0;
    while i < ls.len()
        invariant
            i <= ls@.len(),
            all == views(ls@),
            mem_key@ == "MemTotal"@,
            swap_key@ == "SwapTotal"@,
            acc == meminfo_spec(all.subrange(0, i as int)),
        decreases ls@.len() - i,
    {
        proof {
            assert(all.subrange(0, i + 1).drop_last() =~= all.subrange(0, i as int));
            assert(all.subrange(0, i + 1).last() == ls@[i as int]@);
        }
        let line = ls[i].as_slice();
        match split_once_at(line, ':') {
            Some(j) => {
                let n = line.len();
                let k = slice_to_vec(line, 0, j);
                let rest = slice_to_vec(line, j + 1, n);
                let key = trimmed(k.as_slice(), &Class::Ws);
                if chars_eq(key.as_slice(), mem_key.as_slice()) {
                    match meminfo_value_exec(rest.as_slice()) {
                        Some(v) => {
                            acc = (Some(v), acc.1);
                        },
                        None => {},
                    }
                } else if chars_eq(key.as_slice(), swap_key.as_slice()) {
                    match meminfo_value_exec(rest.as_slice()) {
                        Some(v) => {
                            acc = (acc.0, Some(v));
                        },
                        None => {},
                    }
                }
            },
            None => {},
        }
        i += 1;
    }
    proof {
        assert(all.subrange(0, all.len() as int) =~= all);
    }
    acc
}

// ---------------------------------------------------------------- os-release

/// The value of the first pair with key `key`.
pub open spec fn lookup(pairs: Seq<(Seq<char>, Seq<char>)>, key: Seq<char>) -> Option<Seq<char>>
    decreases pairs.len(),
{
    if pairs.len() == 0 {
        None
    } else if pairs[0].0 == key {
        Some(pairs[0].1)
    } else {
        lookup(pairs.drop_first(), key)
    }
}

/// What `Value::from_option` makes of an optional text.
pub open spec fn value_of_opt(o: Option<Seq<char>>) -> ValueView {
    match o {
        Some(s) => if trim_ws(s).len() == 0 {
            ValueView::Unavailable
        } else {
            ValueView::Known(s)
        },
        None => ValueView::Unavailable,
    }
}

/// An os-release field.
pub fn os_field(pairs: &Vec<(String, String)>, key: &str) -> (v: Value)
    ensures
        v@ == value_of_opt(lookup(super::util::pair_views(pairs@), key@)),
{
    let ghost pv = super::util::pair_views(pairs@);
    let k = chars_of(key);
    let mut i: usize = 0;
    proof {
        assert(pv.subrange(0, pv.len() as int) =~= pv);
    }
    while i < pairs.len()
        invariant
            i <= pairs@.len(),
            pv == super::util::pair_views(pairs@),
            k@ == key@,
            lookup(pv.subrange(i as int, pv.len() as int), key@) == lookup(pv, key@),
        decreases pairs@.len() - i,
    {
        proof {
            let t = pv.subrange(i as int, pv.len() as int);
            assert(t.drop_first() =~= pv.subrange(i + 1, pv.len() as int));
            assert(t[0] == (pairs@[i as int].0@, pairs@[i as int].1@));
        }
        let c = chars_of(pairs[i].0.as_str());
        if chars_eq(c.as_slice(), k.as_slice()) {
            return Value::from_option(Some(pairs[i].1.clone()));
        }
        i += 1;
    }
    Value::Unavailable
}

// ---------------------------------------------------------------- assembly

/// The board name: vendor and name together, or whichever is known; with neither,
/// a root-gated half is kept as `RequiresRoot` rather than flattened to unavailable.
pub open spec fn board_of(vendor: ValueView, name: ValueView) -> ValueView {
    match (vendor, name) {
        (ValueView::Known(v), ValueView::Known(n)) => value_of_opt(Some(super::spaced(v, n))),
        (ValueView::Known(v), _) => value_of_opt(Some(v)),
        (_, ValueView::Known(n)) => value_of_opt(Some(n)),
        _ => super::first_known_spec(seq![vendor, name]),
    }
}

fn clone_value(v: &Value) -> (r: Value)
    ensures
        r@ == v@,
{
    match v {
        Value::Known(s) => Value::Known(s.clone()),
        Value::Unavailable => Value::Unavailable,
        Value::RequiresRoot => Value::RequiresRoot,
    }
}

pub fn board(vendor: Value, name: Value) -> (b: Value)
    ensures
        b@ == board_of(vendor@, name@),
{
    match (&vendor, &name) {
        (Value::Known(v), Value::Known(n)) => Value::known(super::join_spaced(v.as_str(), n.as_str())),
        (Value::Known(v), _) => Value::known(v.clone()),
        (_, Value::Known(n)) => Value::known(n.clone()),
        _ => {
            let mut c: Vec<Value> = Vec::new();
            c.push(clone_value(&vendor));
            c.push(clone_value(&name));
            proof {
                assert(super::value_views(c@) =~= seq![vendor@, name@]);
            }
            Value::first_known(c)
        },
    }
}

pub open spec fn opt_text(o: Option<String>) -> Option<Seq<char>> {
    match o {
        Some(s) => Some(s@),
        None => None,
    }
}

/// The CPU facts: model and vendor from cpuinfo, threads counted there, cores and
/// sockets from the topology pairs of the present CPUs, and the clock.
pub fn cpu(cpuinfo: Option<&str>, topo: &Vec<(Option<i64>, Option<i64>)>, max_freq_khz: Option<u64>) -> (c: Cpu)
    ensures
        ({
            let t = match cpuinfo {
                Some(s) => cpu_text(lines(s@)),
                None => cpu_text(seq![]),
            };
            &&& c.model@ == value_of_opt(t.model)
            &&& c.vendor@ == value_of_opt(t.vendor)
            &&& c.logical_threads == (if t.threads % 0x1_0000_0000 > 0 {
                Some((t.threads % 0x1_0000_0000) as u32)
            } else {
                None
            })
            &&& c.physical_cores == count_spec(distinct(topo_pairs(topo@)).len())
            &&& c.sockets == count_spec(distinct(topo_pairs(topo@).map_values(|p: (i64, i64)| p.0)).len())
            &&& c.max_freq_khz == max_freq_khz
        }),
{
    let text = match cpuinfo {
        Some(s) => parse_cpuinfo(s),
        None => {
            let e = parse_cpuinfo("");
            proof {
                reveal_strlit("");
                assert(lines(""@) =~= Seq::<Seq<char>>::empty());
            }
            e
        },
    };
    let (physical_cores, sockets) = topology(topo);
    let logical_threads = if text.threads > 0 {
        Some(text.threads)
    } else {
        None
    };
    Cpu {
        model: Value::from_option(text.model),
        vendor: Value::from_option(text.vendor),
        physical_cores,
        logical_threads,
        sockets,
        max_freq_khz,
    }
}

/// What the summary probe read.
pub struct SummarySources {
    pub sys_vendor: Attr,
    pub product_name: Attr,
    pub board_vendor: Attr,
    pub board_name: Attr,
    /// `/etc/os-release`, and `/usr/lib/os-release` for a stateless `/etc`.
    pub etc_os_release: Attr,
    pub lib_os_release: Attr,
    pub kernel: Attr,
    pub hostname: Attr,
    /// `uname().machine`.
    pub machine: Option<String>,
    /// The architecture the program was built for.
    pub build_arch: String,
    pub uptime_secs: Option<u64>,
    pub meminfo: Attr,
    pub xdg_current_desktop: Option<String>,
    pub desktop_session: Option<String>,
    /// This application's own version, standing in for the desktop's: the stack exposes
    /// no runtime version anywhere.
    pub desktop_version: String,
    pub session_type: Option<String>,
    pub wayland_display: bool,
    pub display: bool,
}

/// The os-release text used: `/etc`'s, else `/usr/lib`'s, else nothing.
pub open spec fn os_release_text(src: SummarySources) -> Seq<char> {
    match attr_text(src.etc_os_release) {
        Some(t) => t,
        None => match attr_text(src.lib_os_release) {
            Some(t) => t,
            None => seq![],
        },
    }
}

pub open spec fn os_pairs(src: SummarySources) -> Seq<(Seq<char>, Seq<char>)> {
    super::util::env_pairs(lines(os_release_text(src)))
}

pub open spec fn sum_sizes(d: Seq<super::Disk>) -> u64
    decreases d.len(),
{
    if d.len() == 0 {
        0
    } else {
        let p = sum_sizes(d.drop_last());
        if p + d.last().size_bytes <= u64::MAX {
            (p + d.last().size_bytes) as u64
        } else {
            u64::MAX
        }
    }
}

/// `s` is the summary of the sources, the CPU facts, the GPUs and the disks.
pub open spec fn summary_ok(src: SummarySources, cpu: Cpu, gpus: Seq<super::Gpu>, disks: Seq<super::Disk>, s: super::Summary) -> bool {
    let os = os_pairs(src);
    &&& s.vendor@ == super::firmware::dmi_value(src.sys_vendor)
    &&& s.model@ == super::firmware::dmi_value(src.product_name)
    &&& s.board@ == board_of(super::firmware::dmi_value(src.board_vendor), super::firmware::dmi_value(src.board_name))
    &&& s.os_name@ == super::first_known_spec(seq![
        value_of_opt(lookup(os, "PRETTY_NAME"@)),
        value_of_opt(lookup(os, "NAME"@)),
        value_of_opt(lookup(os, "ID"@)),
    ])
    &&& s.os_build@ == value_of_opt(lookup(os, "BUILD_ID"@))
    &&& s.kernel@ == super::value_of_attr(src.kernel)
    &&& s.architecture@ == super::first_known_spec(seq![
        value_of_opt(opt_text(src.machine)),
        value_of_opt(Some(src.build_arch@)),
    ])
    &&& s.hostname@ == super::value_of_attr(src.hostname)
    &&& s.uptime_secs == src.uptime_secs
    &&& s.cpu == cpu
    &&& (s.mem_total_bytes, s.swap_total_bytes) == (match attr_text(src.meminfo) {
        Some(t) => meminfo_spec(lines(t)),
        None => meminfo_spec(seq![]),
    })
    &&& s.gpu_names@.len() == gpus.len()
    &&& forall|j: int| 0 <= j < gpus.len() ==> #[trigger] s.gpu_names@[j]@ == super::title_of(
        super::opt_view(gpus[j].vendor_name),
        super::opt_view(gpus[j].device_name),
        gpus[j].id_string@,
    )
    &&& s.disk_total_bytes == sum_sizes(disks)
    &&& s.disk_count == disks.len()
    &&& s.desktop@ == super::first_known_spec(seq![
        value_of_opt(opt_text(src.xdg_current_desktop)),
        value_of_opt(opt_text(src.desktop_session)),
    ])
    &&& s.desktop_version@ == src.desktop_version@
    &&& s.display_server == server_of(opt_text(src.session_type), src.wayland_display, src.display)
}

fn first_of3(a: Value, b: Value, c: Value) -> (v: Value)
    ensures
        v@ == super::first_known_spec(seq![a@, b@, c@]),
{
    let mut cs: Vec<Value> = Vec::new();
    let ghost (av, bv, cv) = (a@, b@, c@);
    cs.push(a);
    cs.push(b);
    cs.push(c);
    proof {
        assert(super::value_views(cs@) =~= seq![av, bv, cv]);
    }
    Value::first_known(cs)
}

fn first_of2(a: Value, b: Value) -> (v: Value)
    ensures
        v@ == super::first_known_spec(seq![a@, b@]),
{
    let mut cs: Vec<Value> = Vec::new();
    let ghost (av, bv) = (a@, b@);
    cs.push(a);
    cs.push(b);
    proof {
        assert(super::value_views(cs@) =~= seq![av, bv]);
    }
    Value::first_known(cs)
}

fn text_value(o: Option<String>) -> (v: Value)
    ensures
        v@ == value_of_opt(opt_text(o)),
{
    Value::from_option(o)
}

/// The headline summary.
pub fn probe(src: SummarySources, cpu: Cpu, gpus: &Vec<super::Gpu>, disks: &Vec<super::Disk>) -> (s: super::Summary)
    ensures
        summary_ok(src, cpu, gpus@, disks@, s),
{
    let ghost src0 = src;
    let ghost cpu0 = cpu;
    let board_vendor = super::firmware::dmi(src.board_vendor);
    let board_name = super::firmware::dmi(src.board_name);
    let board = board(board_vendor, board_name);
    let os_text: String = match attr_trim(&src.etc_os_release) {
        Some(t) => t,
        None => match attr_trim(&src.lib_os_release) {
            Some(t) => t,
            None => String::new(),
        },
    };
    let os = super::util::parse_env_file(os_text.as_str());
    let os_name = first_of3(os_field(&os, "PRETTY_NAME"), os_field(&os, "NAME"), os_field(&os, "ID"));
    let os_build = os_field(&os, "BUILD_ID");
    let (mem_total_bytes, swap_total_bytes) = match attr_trim(&src.meminfo) {
        Some(t) => parse_meminfo(t.as_str()),
        None => {
            proof {
                assert(lines(seq![]) =~= Seq::<Seq<char>>::empty());
            }
            (None, None)
        },
    };
    let mut gpu_names: Vec<String> = Vec::new();
    let mut i: usize = 0;
    while i < gpus.len()
        invariant
            i <= gpus@.len(),
            gpu_names@.len() == i,
            forall|j: int| 0 <= j < i ==> #[trigger] gpu_names@[j]@ == super::title_of(
                super::opt_view(gpus@[j].vendor_name),
                super::opt_view(gpus@[j].device_name),
                gpus@[j].id_string@,
            ),
        decreases gpus@.len() - i,
    {
        gpu_names.push(gpus[i].title());
        i += 1;
    }
    let mut total: u64 = 0;
    let mut k: usize = 0;
    while k < disks.len()
        invariant
            k <= disks@.len(),
            total == sum_sizes(disks@.subrange(0, k as int)),
        decreases disks@.len() - k,
    {
        proof {
            assert(disks@.subrange(0, k + 1).drop_last() =~= disks@.subrange(0, k as int));
            assert(disks@.subrange(0, k + 1).last() == disks@[k as int]);
        }
        total = match total.checked_add(disks[k].size_bytes) {
            Some(t) => t,
            None => u64::MAX,
        };
        k += 1;
    }
    proof {
        assert(disks@.subrange(0, disks@.len() as int) =~= disks@);
    }
    let architecture = first_of2(text_value(src.machine), Value::from_option(Some(src.build_arch)));
    let desktop = first_of2(text_value(src.xdg_current_desktop), text_value(src.desktop_session));
    let display_server = match &src.session_type {
        Some(t) => display_server(Some(t.as_str()), src.wayland_display, src.display),
        None => display_server(None, src.wayland_display, src.display),
    };
    let s = super::Summary {
        vendor: super::firmware::dmi(src.sys_vendor),
        model: super::firmware::dmi(src.product_name),
        board,
        os_name,
        os_build,
        kernel: Value::from_attr(src.kernel),
        architecture,
        hostname: Value::from_attr(src.hostname),
        uptime_secs: src.uptime_secs,
        cpu,
        mem_total_bytes,
        swap_total_bytes,
        gpu_names,
        disk_total_bytes: total,
        disk_count: disks.len(),
        desktop,
        desktop_version: src.desktop_version,
        display_server,
    };
    proof {
        reveal_strlit("");
        assert(os_text@ == os_release_text(src0));
    }
    s
}

} // verus!
