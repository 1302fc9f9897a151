//! The About page: the strings it renders out of the hardware summary, and the rule
//! for renaming the machine.
use vstd::prelude::*;
use crate::hardware::{machine_of, Summary, Value, ValueView};
use crate::num::{dec_chars, dec_str};
use crate::text::{chars_eq, chars_of, split, string_of};

verus! {

/// What the About page shows.
pub struct Info {
    pub desktop_environment: String,
    pub device_name: String,
    pub disk_capacity: String,
    pub graphics: Vec<String>,
    pub hardware_model: String,
    pub memory: String,
    pub operating_system: String,
    pub os_architecture: String,
    pub kernel_version: String,
    pub processor: String,
    pub windowing_system: String,
    /// The board behind the machine name. On a self-built desktop the DMI product name
    /// is OEM junk and gets filtered out, so this is often the only real identifier.
    pub motherboard: String,
    /// Swap total, shown next to memory.
    pub swap: String,
}

/// A value's text, or `unknown`.
pub open spec fn text_or(v: ValueView, unknown: Seq<char>) -> Seq<char> {
    match v {
        ValueView::Known(s) => s,
        _ => unknown,
    }
}

pub open spec fn opt_or(o: Option<Seq<char>>, unknown: Seq<char>) -> Seq<char> {
    match o {
        Some(s) => s,
        None => unknown,
    }
}

pub open spec fn opt_text(o: Option<String>) -> Option<Seq<char>> {
    match o {
        Some(s) => Some(s@),
        None => None,
    }
}

/// The processor row: the model plus the core and thread count, which is what makes
/// the row useful on a hybrid CPU where the model name alone says nothing of the split.
pub open spec fn processor_text(model: ValueView, cores: Option<u32>, threads: Option<u32>, unknown: Seq<char>) -> Seq<char> {
    match model {
        ValueView::Known(m) => match (cores, threads) {
            (Some(c), Some(t)) => m + " ("@ + dec_str(c as nat) + " / "@ + dec_str(t as nat) + ")"@,
            _ => m,
        },
        _ => unknown,
    }
}

fn value_text(v: &Value, unknown: &str) -> (s: String)
    ensures
        s@ == text_or(v@, unknown@),
{
    match v.as_str() {
        Some(t) => t.to_owned(),
        None => unknown.to_owned(),
    }
}

fn push_all(v: &mut Vec<char>, w: &Vec<char>)
    ensures
        final(v)@ == old(v)@ + w@,
{
    let ghost start = v@;
    let mut k: usize = 0;
    while k < w.len()
        invariant
            k <= w@.len(),
            v@ == start + w@.subrange(0, k as int),
        decreases w@.len() - k,
    {
        proof {
            assert(w@.subrange(0, k + 1) =~= w@.subrange(0, k as int).push(w@[k as int]));
        }
        v.push(w[k]);
        k += 1;
    }
    proof {
        assert(w@.subrange(0, w@.len() as int) =~= w@);
    }
}

pub fn processor(summary: &Summary, unknown: &str) -> (s: String)
    ensures
        s@ == processor_text(summary.cpu.model@, summary.cpu.physical_cores, summary.cpu.logical_threads, unknown@),
{
    let model = match summary.cpu.model.as_str() {
        Some(m) => m,
        None => return unknown.to_owned(),
    };
    match (summary.cpu.physical_cores, summary.cpu.logical_threads) {
        (Some(c), Some(t)) => {
            let mut v = chars_of(model);
            push_all(&mut v, &chars_of(" ("));
            push_all(&mut v, &dec_chars(c as u64));
            push_all(&mut v, &chars_of(" / "));
            push_all(&mut v, &dec_chars(t as u64));
            push_all(&mut v, &chars_of(")"));
            string_of(v.as_slice())
        },
        _ => model.to_owned(),
    }
}

fn copy_strings(v: &Vec<String>) -> (out: Vec<String>)
    ensures
        out@.map_values(|s: String| s@) == v@.map_values(|s: String| s@),
{
    let mut out: Vec<String> = Vec::new();
    let mut i: usize = 0;
    while i < v.len()
        invariant
            i <= v@.len(),
            out@.map_values(|s: String| s@) == v@.subrange(0, i as int).map_values(|s: String| s@),
        decreases v@.len() - i,
    {
        let s = v[i].clone();
        proof {
            assert(out@.push(s).map_values(|s: String| s@) =~= out@.map_values(|s: String| s@).push(s@));
            assert(v@.subrange(0, i + 1).map_values(|s: String| s@) =~= v@.subrange(0, i as int).map_values(|s: String| s@).push(v@[i as int]@));
        }
        out.push(s);
        i += 1;
    }
    proof {
        assert(v@.subrange(0, v@.len() as int) =~= v@);
    }
    out
}

/// The About strings out of the summary. `unknown` is what a missing fact reads as;
/// the byte counts come already formatted (`disk_text` for a non-zero disk total,
/// `memory_text` and `swap_text` where the totals are known), since that formatting is
/// done in floating point, outside this library.
pub fn info_from(
    summary: &Summary,
    unknown: &str,
    desktop_environment: String,
    disk_text: String,
    memory_text: Option<String>,
    swap_text: Option<String>,
) -> (info: Info)
    ensures
        info.desktop_environment@ == desktop_environment@,
        info.device_name@ == text_or(summary.hostname@, unknown@),
        info.disk_capacity@ == (if summary.disk_total_bytes > 0 {
            disk_text@
        } else {
            unknown@
        }),
        info.graphics@.map_values(|s: String| s@) == summary.gpu_names@.map_values(|s: String| s@),
        info.hardware_model@ == opt_or(machine_of(summary.vendor@, summary.model@, summary.board@), unknown@),
        info.memory@ == opt_or(opt_text(memory_text), unknown@),
        info.operating_system@ == text_or(summary.os_name@, unknown@),
        info.os_architecture@ == text_or(summary.architecture@, unknown@),
        info.kernel_version@ == text_or(summary.kernel@, unknown@),
        info.processor@ == processor_text(summary.cpu.model@, summary.cpu.physical_cores, summary.cpu.logical_threads, unknown@),
        info.windowing_system@ == (match summary.display_server {
            crate::hardware::DisplayServer::Wayland => "Wayland"@,
            crate::hardware::DisplayServer::X11 => "X11"@,
            crate::hardware::DisplayServer::Tty => "TTY"@,
            crate::hardware::DisplayServer::Unknown => "unknown"@,
        }),
        info.motherboard@ == text_or(summary.board@, unknown@),
        info.swap@ == opt_or(opt_text(swap_text), unknown@),
{
    let hardware_model = match summary.machine() {
        Some(m) => m,
        None => unknown.to_owned(),
    };
    Info {
        desktop_environment,
        device_name: value_text(&summary.hostname, unknown),
        disk_capacity: if summary.disk_total_bytes > 0 {
            disk_text
        } else {
            unknown.to_owned()
        },
        graphics: copy_strings(&summary.gpu_names),
        hardware_model,
        memory: match memory_text {
            Some(m) => m,
            None => unknown.to_owned(),
        },
        operating_system: value_text(&summary.os_name, unknown),
        os_architecture: value_text(&summary.architecture, unknown),
        kernel_version: value_text(&summary.kernel, unknown),
        processor: processor(summary, unknown),
        windowing_system: summary.display_server.as_str().to_owned(),
        motherboard: value_text(&summary.board, unknown),
        swap: match swap_text {
            Some(s) => s,
            None => unknown.to_owned(),
        },
    }
}

// ---------------------------------------------------------------- hostname

pub open spec fn host_char(c: char) -> bool {
    ('a' <= c && c <= 'z') || ('A' <= c && c <= 'Z') || ('0' <= c && c <= '9') || c == '-' || c
        == '.'
}

pub open spec fn label_ok(l: Seq<char>) -> bool {
    0 < l.len() <= 63 && l[0] != '-' && l.last() != '-'
}

/// A hostname by RFC 1123: not empty, at most 253 characters, only ASCII letters,
/// digits, `-` and `.`, and every `.`-separated label non-empty, at most 63 characters,
/// and neither starting nor ending with `-`.
pub open spec fn valid_hostname(h: Seq<char>) -> bool {
    &&& 0 < h.len() <= 253
    &&& forall|i: int| 0 <= i < h.len() ==> host_char(#[trigger] h[i])
    &&& forall|j: int| 0 <= j < split(h, '.').len() ==> label_ok(#[trigger] split(h, '.')[j])
}

/// Calls `hostname_validator::is_valid`, which checks a hostname against RFC 1123 by the
/// rules `valid_hostname` states (its documentation lists them, and its source tests
/// exactly those: a byte outside `[a-zA-Z0-9.-]`, an empty, over-long or dash-bounded
/// label, an empty or over-long name). Only ASCII passes the byte test, so counting
/// bytes and counting characters agree wherever the other tests matter.
#[verifier::external_body]
fn hostname_is_valid(hostname: &str) -> (b: bool)
    ensures
        b == valid_hostname(hostname@),
{
    hostname_validator::is_valid(hostname)
}

/// What submitting the hostname field does.
pub enum HostnameStep {
    /// Nothing: the name is unchanged, or not a valid hostname.
    Keep,
    /// Leave editing and ask the system to take this name.
    Submit(String),
}

/// The rule for a submitted hostname: an unchanged or invalid name is ignored.
pub fn hostname_submit(input: &str, current: &str) -> (step: HostnameStep)
    ensures
        match step {
            HostnameStep::Keep => input@ == current@ || !valid_hostname(input@),
            HostnameStep::Submit(h) => h@ == input@ && input@ != current@ && valid_hostname(input@),
        },
{
    let a = chars_of(input);
    let b = chars_of(current);
    if chars_eq(a.as_slice(), b.as_slice()) {
        return HostnameStep::Keep;
    }
    if !hostname_is_valid(input) {
        return HostnameStep::Keep;
    }
    HostnameStep::Submit(input.to_owned())
}

} // verus!
