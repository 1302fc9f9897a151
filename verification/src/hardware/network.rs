//! Network interfaces from `/sys/class/net`, plus per-interface IP addresses from
//! `getifaddrs(3)`.
//!
//! sysfs alone cannot answer "which IPv4 does this interface hold", so the caller lists
//! the addresses `getifaddrs` reported, each with its interface name, and they are
//! joined here onto the sysfs walk.
use vstd::prelude::*;
use crate::order::{
    is_stable_lex_order, is_stable_order, key_views, lex_key_before, stable_lex_order,
    stable_order,
};
use crate::text::{chars_of, has_prefix, starts_with, chars_eq};
use super::util::{attr_text, attr_trim, read_i64, read_u32, Attr};
use super::{IfKind, IfState, Interface};

verus! {

/// `ARPHRD_LOOPBACK`. The only reliable loopback marker; the name `lo` is convention.
pub const ARPHRD_LOOPBACK: u32 = 772;

/// `ARPHRD_TUNNEL` (ipip).
pub const ARPHRD_TUNNEL: u32 = 768;

/// `ARPHRD_TUNNEL6`.
pub const ARPHRD_TUNNEL6: u32 = 769;

/// `ARPHRD_NONE`, used by tun/wireguard devices.
pub const ARPHRD_NONE: u32 = 65534;

pub open spec fn speed_of(raw: Option<i64>) -> Option<u32> {
    match raw {
        Some(v) => if 0 <= v <= u32::MAX {
            Some(v as u32)
        } else {
            None
        },
        None => None,
    }
}

/// Normalises the kernel's `speed` attribute.
///
/// `virbr0` reports `-1` for "no meaningful link speed". Parsing the attribute unsigned
/// would drop it as a parse failure, which reads like a missing file and hides the
/// distinction; it is parsed signed and negatives are discarded explicitly instead.
pub fn parse_speed(raw: Option<i64>) -> (r: Option<u32>)
    ensures
        r == speed_of(raw),
{
    match raw {
        Some(v) => if 0 <= v && v <= 0xffff_ffff {
            Some(v as u32)
        } else {
            None
        },
        None => None,
    }
}

pub open spec fn state_of(raw: Option<Seq<char>>) -> IfState {
    match raw {
        Some(s) => if s == "up"@ {
            IfState::Up
        } else if s == "dormant"@ {
            IfState::Dormant
        } else if s == "down"@ || s == "lowerlayerdown"@ || s == "notpresent"@ {
            IfState::Down
        } else {
            IfState::Unknown
        },
        None => IfState::Unknown,
    }
}

pub open spec fn str_opt(o: Option<&str>) -> Option<Seq<char>> {
    match o {
        Some(s) => Some(s@),
        None => None,
    }
}

/// `operstate` as a state. `unknown` and `testing`, and a missing attribute, are
/// `Unknown`; plain `lo` genuinely reports `unknown`, so this is not an error path.
pub fn parse_state(raw: Option<&str>) -> (r: IfState)
    ensures
        r == state_of(str_opt(raw)),
{
    match raw {
        Some(s) => {
            let c = chars_of(s);
            let up = chars_of("up");
            let dormant = chars_of("dormant");
            let down = chars_of("down");
            let lower = chars_of("lowerlayerdown");
            let absent = chars_of("notpresent");
            if chars_eq(c.as_slice(), up.as_slice()) {
                IfState::Up
            } else if chars_eq(c.as_slice(), dormant.as_slice()) {
                IfState::Dormant
            } else if chars_eq(c.as_slice(), down.as_slice()) || chars_eq(c.as_slice(), lower.as_slice())
                || chars_eq(c.as_slice(), absent.as_slice()) {
                IfState::Down
            } else {
                IfState::Unknown
            }
        },
        None => IfState::Unknown,
    }
}

/// Names of tunnel interfaces.
pub open spec fn tunnel_prefixes() -> Seq<Seq<char>> {
    seq!["tun"@, "tap"@, "wg"@, "ppp"@, "sit"@, "gre"@]
}

pub open spec fn tunnel_name(name: Seq<char>) -> bool {
    exists|i: int| 0 <= i < tunnel_prefixes().len() && starts_with(name, #[trigger] tunnel_prefixes()[i])
}

pub fn is_tunnel_name(name: &str) -> (b: bool)
    ensures
        b == tunnel_name(name@),
{
    let n = chars_of(name);
    let list: [&str; 6] = ["tun", "tap", "wg", "ppp", "sit", "gre"];
    let ghost views = list@.map_values(|x: &str| x@);
    proof {
        assert(views =~= tunnel_prefixes());
    }
    let mut i: usize = 0;
    while i < 6
        invariant
            i <= 6,
            views == list@.map_values(|x: &str| x@),
            views == tunnel_prefixes(),
            n@ == name@,
            forall|j: int| 0 <= j < i ==> !starts_with(name@, #[trigger] tunnel_prefixes()[j]),
        decreases 6 - i,
    {
        let p = chars_of(list[i]);
        proof {
            assert(p@ == views[i as int]);
        }
        if has_prefix(n.as_slice(), p.as_slice()) {
            proof {
                assert(starts_with(name@, tunnel_prefixes()[i as int]));
            }
            return true;
        }
        i += 1;
    }
    false
}

pub open spec fn kind_of(
    name: Seq<char>,
    if_type: Option<u32>,
    wireless: bool,
    bridge: bool,
    device: bool,
    virtual_path: bool,
) -> IfKind {
    if if_type == Some(ARPHRD_LOOPBACK) {
        IfKind::Loopback
    } else if wireless {
        IfKind::Wireless
    } else if bridge {
        IfKind::Bridge
    } else if device {
        IfKind::Wired
    } else if tunnel_name(name) || if_type == Some(ARPHRD_TUNNEL) || if_type == Some(
        ARPHRD_TUNNEL6,
    ) || if_type == Some(ARPHRD_NONE) {
        IfKind::Tunnel
    } else if virtual_path {
        IfKind::Virtual
    } else {
        IfKind::Other
    }
}

/// A tunnel is told by its name: an interface that is not loopback, wireless, a bridge
/// or backed by a device, and whose name starts with `tun`, `tap`, `wg`, `ppp`, `sit` or
/// `gre` (OpenVPN and QEMU taps, WireGuard, PPP, 6in4 and GRE), is a tunnel, whatever
/// its type and wherever it sits under sysfs.
pub proof fn lemma_tunnel_names_are_tunnels(name: Seq<char>, if_type: Option<u32>, virtual_path: bool)
    requires
        if_type != Some(ARPHRD_LOOPBACK),
        starts_with(name, "tun"@) || starts_with(name, "tap"@) || starts_with(name, "wg"@)
            || starts_with(name, "ppp"@) || starts_with(name, "sit"@) || starts_with(name, "gre"@),
    ensures
        kind_of(name, if_type, false, false, false, virtual_path) == IfKind::Tunnel,
{
    let ps = tunnel_prefixes();
    if starts_with(name, "tun"@) {
        assert(starts_with(name, ps[0]));
    } else if starts_with(name, "tap"@) {
        assert(starts_with(name, ps[1]));
    } else if starts_with(name, "wg"@) {
        assert(starts_with(name, ps[2]));
    } else if starts_with(name, "ppp"@) {
        assert(starts_with(name, ps[3]));
    } else if starts_with(name, "sit"@) {
        assert(starts_with(name, ps[4]));
    } else {
        assert(starts_with(name, ps[5]));
    }
}

/// The decision table. Loopback is told by type 772 alone; Wi-Fi by the `wireless/`
/// directory or the `phy80211` link only (a managed wlan0 reports type 1 exactly like
/// Ethernet); tunnels are checked before the virtual-path fallback, because tun, tap,
/// wg, ppp, sit and gre all resolve under `devices/virtual/net` too.
pub fn classify(
    name: &str,
    if_type: Option<u32>,
    wireless: bool,
    bridge: bool,
    device: bool,
    virtual_path: bool,
) -> (k: IfKind)
    ensures
        k == kind_of(name@, if_type, wireless, bridge, device, virtual_path),
{
    if if_type == Some(ARPHRD_LOOPBACK) {
        return IfKind::Loopback;
    }
    if wireless {
        return IfKind::Wireless;
    }
    if bridge {
        return IfKind::Bridge;
    }
    if device {
        return IfKind::Wired;
    }
    if is_tunnel_name(name) || if_type == Some(ARPHRD_TUNNEL) || if_type == Some(ARPHRD_TUNNEL6)
        || if_type == Some(ARPHRD_NONE) {
        return IfKind::Tunnel;
    }
    if virtual_path {
        return IfKind::Virtual;
    }
    IfKind::Other
}

pub open spec fn rank_of(kind: IfKind) -> u8 {
    match kind {
        IfKind::Wired | IfKind::Wireless => 0,
        IfKind::Loopback => 1,
        IfKind::Bridge | IfKind::Virtual | IfKind::Tunnel | IfKind::Other => 2,
    }
}

/// Physical first, then loopback, then everything synthetic.
pub fn sort_rank(kind: IfKind) -> (r: u8)
    ensures
        r == rank_of(kind),
{
    match kind {
        IfKind::Wired | IfKind::Wireless => 0,
        IfKind::Loopback => 1,
        IfKind::Bridge | IfKind::Virtual | IfKind::Tunnel | IfKind::Other => 2,
    }
}

// ---------------------------------------------------------------- assembly

/// One address `getifaddrs` reported.
#[derive(Clone, Copy)]
pub enum IfAddr {
    /// The four octets as a big-endian number.
    V4(u32),
    /// The sixteen octets as a big-endian number.
    V6(u128),
}

/// An address with the name of its interface.
pub struct NamedAddr {
    pub name: String,
    pub addr: IfAddr,
}

/// What the sysfs directory of one interface gave.
pub struct InterfaceSource {
    pub name: String,
    /// The `type` attribute (an `ARPHRD_*` number).
    pub if_type: Attr,
    /// `wireless/` is a directory or `phy80211` exists.
    pub wireless: bool,
    /// `bridge/` is a directory.
    pub bridge: bool,
    /// `device` exists.
    pub device: bool,
    /// The interface's link resolves under `devices/virtual/net`.
    pub virtual_path: bool,
    pub address: Attr,
    pub operstate: Attr,
    pub speed: Attr,
    pub duplex: Attr,
    pub mtu: Attr,
    /// Base name of the `device/driver` link.
    pub driver: Option<String>,
}

pub open spec fn u32_attr(a: Attr) -> Option<u32> {
    match attr_text(a) {
        Some(t) => crate::num::parse_u32_spec(t),
        None => None,
    }
}

pub open spec fn i64_attr(a: Attr) -> Option<i64> {
    match attr_text(a) {
        Some(t) => crate::num::parse_i64_spec(t),
        None => None,
    }
}

pub open spec fn source_kind(s: InterfaceSource) -> IfKind {
    kind_of(s.name@, u32_attr(s.if_type), s.wireless, s.bridge, s.device, s.virtual_path)
}

/// The IPv4 addresses listed for interface `name`, in the order given.
pub open spec fn v4_of(addrs: Seq<NamedAddr>, name: Seq<char>) -> Seq<u32>
    decreases addrs.len(),
{
    if addrs.len() == 0 {
        seq![]
    } else {
        let p = v4_of(addrs.drop_last(), name);
        match addrs.last().addr {
            IfAddr::V4(a) => if addrs.last().name@ == name {
                p.push(a)
            } else {
                p
            },
            IfAddr::V6(_) => p,
        }
    }
}

/// The IPv6 addresses listed for interface `name`, in the order given.
pub open spec fn v6_of(addrs: Seq<NamedAddr>, name: Seq<char>) -> Seq<u128>
    decreases addrs.len(),
{
    if addrs.len() == 0 {
        seq![]
    } else {
        let p = v6_of(addrs.drop_last(), name);
        match addrs.last().addr {
            IfAddr::V6(a) => if addrs.last().name@ == name {
                p.push(a)
            } else {
                p
            },
            IfAddr::V4(_) => p,
        }
    }
}

/// `out` holds the numbers of `v` in ascending order.
pub open spec fn sorted_from(v: Seq<u128>, out: Seq<u128>) -> bool {
    exists|order: Seq<usize>|
        is_stable_order(v, order) && out.len() == v.len() && forall|j: int|
            0 <= j < out.len() ==> #[trigger] out[j] == v[order[j] as int]
}

pub open spec fn widen4(v: Seq<u32>) -> Seq<u128> {
    v.map_values(|x: u32| x as u128)
}

pub open spec fn opt_string(o: Option<String>) -> Option<Seq<char>> {
    match o {
        Some(s) => Some(s@),
        None => None,
    }
}

/// `i` is the interface built from `s` and the address list.
pub open spec fn interface_ok(s: InterfaceSource, addrs: Seq<NamedAddr>, i: Interface) -> bool {
    &&& i.name@ == s.name@
    &&& i.kind == source_kind(s)
    &&& opt_string(i.mac) == attr_text(s.address)
    &&& i.state == state_of(attr_text(s.operstate))
    &&& i.speed_mbps == speed_of(i64_attr(s.speed))
    &&& opt_string(i.duplex) == (match attr_text(s.duplex) {
        Some(d) => if d == "unknown"@ {
            None
        } else {
            Some(d)
        },
        None => None,
    })
    &&& i.mtu == u32_attr(s.mtu)
    &&& i.driver == s.driver
    &&& sorted_from(widen4(v4_of(addrs, s.name@)), widen4(i.ipv4@))
    &&& sorted_from(v6_of(addrs, s.name@), i.ipv6@)
}

/// The addresses of one interface, split by family, in the order given.
fn addresses_of(addrs: &Vec<NamedAddr>, name: &str) -> (r: (Vec<u32>, Vec<u128>))
    ensures
        r.0@ == v4_of(addrs@, name@),
        r.1@ == v6_of(addrs@, name@),
{
    let n = chars_of(name);
    let mut v4: Vec<u32> = Vec::new();
    let mut v6: Vec<u128> = Vec::new();
    let mut i: usize = 0;
    while i < addrs.len()
        invariant
            i <= addrs@.len(),
            n@ == name@,
            v4@ == v4_of(addrs@.subrange(0, i as int), name@),
            v6@ == v6_of(addrs@.subrange(0, i as int), name@),
        decreases addrs@.len() - i,
    {
        proof {
            assert(addrs@.subrange(0, i + 1).drop_last() =~= addrs@.subrange(0, i as int));
            assert(addrs@.subrange(0, i + 1).last() == addrs@[i as int]);
        }
        let a = &addrs[i];
        let an = chars_of(a.name.as_str());
        let same = chars_eq(an.as_slice(), n.as_slice());
        match a.addr {
            IfAddr::V4(x) => if same {
                v4.push(x);
            },
            IfAddr::V6(x) => if same {
                v6.push(x);
            },
        }
        i += 1;
    }
    proof {
        assert(addrs@.subrange(0, addrs@.len() as int) =~= addrs@);
    }
    (v4, v6)
}

/// `v` in ascending order.
fn sorted_u128(v: &Vec<u128>) -> (out: Vec<u128>)
    ensures
        sorted_from(v@, out@),
{
    let order = stable_order(v);
    let mut out: Vec<u128> = Vec::new();
    let mut j: usize = 0;
    while j < order.len()
        invariant
            j <= order@.len(),
            is_stable_order(v@, order@),
            out@.len() == j,
            forall|q: int| 0 <= q < j ==> #[trigger] out@[q] == v@[order@[q] as int],
        decreases order@.len() - j,
    {
        out.push(v[order[j]]);
        j += 1;
    }
    out
}

/// `v` in ascending order.
fn sorted_u32(v: &Vec<u32>) -> (out: Vec<u32>)
    ensures
        sorted_from(widen4(v@), widen4(out@)),
{
    let mut wide: Vec<u128> = Vec::new();
    let mut i: usize = 0;
    while i < v.len()
        invariant
            i <= v@.len(),
            wide@ == widen4(v@.subrange(0, i as int)),
        decreases v@.len() - i,
    {
        proof {
            assert(widen4(v@.subrange(0, i + 1)) =~= widen4(v@.subrange(0, i as int)).push(v@[i as int] as u128));
        }
        wide.push(v[i] as u128);
        i += 1;
    }
    proof {
        assert(v@.subrange(0, v@.len() as int) =~= v@);
    }
    let order = stable_order(&wide);
    let mut out: Vec<u32> = Vec::new();
    let mut j: usize = 0;
    while j < order.len()
        invariant
            j <= order@.len(),
            wide@ == widen4(v@),
            is_stable_order(wide@, order@),
            out@.len() == j,
            forall|q: int| 0 <= q < j ==> #[trigger] out@[q] == v@[order@[q] as int],
        decreases order@.len() - j,
    {
        out.push(v[order[j]]);
        j += 1;
    }
    proof {
        let w = widen4(out@);
        assert forall|q: int| 0 <= q < w.len() implies #[trigger] w[q] == wide@[order@[q] as int] by {
            assert(out@[q] == v@[order@[q] as int]);
        }
    }
    out
}

/// One interface out of its sysfs directory and the address list. Addresses are sorted
/// so that a copied report is stable; `getifaddrs` order is kernel-internal.
pub fn read_interface(src: &InterfaceSource, addrs: &Vec<NamedAddr>) -> (i: Interface)
    ensures
        interface_ok(*src, addrs@, i),
{
    let (v4, v6) = addresses_of(addrs, src.name.as_str());
    let ipv4 = sorted_u32(&v4);
    let ipv6 = sorted_u128(&v6);
    let kind = classify(
        src.name.as_str(),
        read_u32(&src.if_type),
        src.wireless,
        src.bridge,
        src.device,
        src.virtual_path,
    );
    let state = match attr_trim(&src.operstate) {
        Some(s) => parse_state(Some(s.as_str())),
        None => parse_state(None),
    };
    let duplex = match attr_trim(&src.duplex) {
        Some(d) => {
            let c = chars_of(d.as_str());
            let u = chars_of("unknown");
            if chars_eq(c.as_slice(), u.as_slice()) {
                None
            } else {
                Some(d)
            }
        },
        None => None,
    };
    Interface {
        name: src.name.clone(),
        kind,
        mac: attr_trim(&src.address),
        state,
        speed_mbps: parse_speed(read_i64(&src.speed)),
        duplex,
        mtu: read_u32(&src.mtu),
        driver: src.driver.clone(),
        ipv4,
        ipv6,
    }
}

/// The sort key of an interface: its rank, then its name.
pub open spec fn if_key(s: InterfaceSource) -> Seq<u32> {
    seq![rank_of(source_kind(s)) as u32] + s.name@.map_values(|c: char| c as u32)
}

pub open spec fn if_keys(ss: Seq<InterfaceSource>) -> Seq<Seq<u32>> {
    ss.map_values(|s: InterfaceSource| if_key(s))
}

/// In an order sorted by interface key, the ranks never go down.
proof fn lemma_ranks_ascend(ss: Seq<InterfaceSource>, order: Seq<usize>)
    requires
        is_stable_lex_order(if_keys(ss), order),
    ensures
        forall|a: int, b: int|
            0 <= a < b < order.len() ==> rank_of(source_kind(#[trigger] ss[order[a] as int])) <= rank_of(
                source_kind(#[trigger] ss[order[b] as int]),
            ),
{
    assert forall|a: int, b: int| 0 <= a < b < order.len() implies rank_of(
        source_kind(#[trigger] ss[order[a] as int]),
    ) <= rank_of(source_kind(#[trigger] ss[order[b] as int])) by {
        let ka = if_key(ss[order[a] as int]);
        let kb = if_key(ss[order[b] as int]);
        assert(if_keys(ss)[order[a] as int] == ka);
        assert(if_keys(ss)[order[b] as int] == kb);
        assert(lex_key_before(if_keys(ss), order[a] as int, order[b] as int));
        assert(ka[0] == rank_of(source_kind(ss[order[a] as int])) as u32);
        assert(kb[0] == rank_of(source_kind(ss[order[b] as int])) as u32);
    }
}

/// Every interface, physical first, then loopback, then everything synthetic, by name
/// within each group.
pub fn probe(srcs: &Vec<InterfaceSource>, addrs: &Vec<NamedAddr>) -> (out: Vec<Interface>)
    ensures
        out@.len() == srcs@.len(),
        exists|order: Seq<usize>|
            is_stable_lex_order(if_keys(srcs@), order) && forall|j: int|
                0 <= j < out@.len() ==> #[trigger] interface_ok(srcs@[order[j] as int], addrs@, out@[j]),
        forall|a: int, b: int|
            0 <= a < b < out@.len() ==> rank_of((#[trigger] out@[a]).kind) <= rank_of((#[trigger] out@[b]).kind),
{
    let mut keys: Vec<Vec<u32>> = Vec::new();
    let mut i: usize = 0;
    while i < srcs.len()
        invariant
            i <= srcs@.len(),
            key_views(keys@) == if_keys(srcs@.subrange(0, i as int)),
        decreases srcs@.len() - i,
    {
        let s = &srcs[i];
        let kind = classify(
            s.name.as_str(),
            read_u32(&s.if_type),
            s.wireless,
            s.bridge,
            s.device,
            s.virtual_path,
        );
        let mut key: Vec<u32> = Vec::new();
        key.push(sort_rank(kind) as u32);
        let name = chars_of(s.name.as_str());
        let mut k: usize = 0;
        while k < name.len()
            invariant
                k <= name@.len(),
                name@ == s.name@,
                key@ == seq![rank_of(kind) as u32] + name@.subrange(0, k as int).map_values(|c: char| c as u32),
            decreases name@.len() - k,
        {
            proof {
                assert(name@.subrange(0, k + 1).map_values(|c: char| c as u32) =~= name@.subrange(0, k as int).map_values(|c: char| c as u32).push(name@[k as int] as u32));
            }
            key.push(name[k] as u32);
            k += 1;
        }
        proof {
            assert(name@.subrange(0, name@.len() as int) =~= name@);
            assert(key@ =~= if_key(*s));
            assert(key_views(keys@.push(key)) =~= key_views(keys@).push(key@));
            assert(if_keys(srcs@.subrange(0, i + 1)) =~= if_keys(srcs@.subrange(0, i as int)).push(if_key(srcs@[i as int])));
        }
        keys.push(key);
        i += 1;
    }
    proof {
        assert(srcs@.subrange(0, srcs@.len() as int) =~= srcs@);
    }
    let order = stable_lex_order(&keys);
    let mut out: Vec<Interface> = Vec::new();
    let mut j: usize = 0;
    while j < order.len()
        invariant
            j <= order@.len(),
            key_views(keys@) == if_keys(srcs@),
            is_stable_lex_order(if_keys(srcs@), order@),
            out@.len() == j,
            forall|q: int| 0 <= q < j ==> #[trigger] interface_ok(srcs@[order@[q] as int], addrs@, out@[q]),
        decreases order@.len() - j,
    {
        let itf = read_interface(&srcs[order[j]], addrs);
        out.push(itf);
        proof {
            assert forall|q: int| 0 <= q < j + 1 implies #[trigger] interface_ok(srcs@[order@[q] as int], addrs@, out@[q]) by {
                if q < j {
                }
            }
        }
        j += 1;
    }
    proof {
        lemma_ranks_ascend(srcs@, order@);
        assert forall|a: int, b: int| 0 <= a < b < out@.len() implies rank_of((#[trigger] out@[a]).kind)
            <= rank_of((#[trigger] out@[b]).kind) by {
            assert(interface_ok(srcs@[order@[a] as int], addrs@, out@[a]));
            assert(interface_ok(srcs@[order@[b] as int], addrs@, out@[b]));
        }
    }
    out
}

} // verus!
