//! The panel pages: how one setting of a panel carries the others with it.
//!
//! A panel's shape is a handful of settings that only look right together: the gap to
//! the screen edge, the corner radius, the margin and padding, whether it stretches to
//! the edges. The rules below say what each change writes alongside itself; the page
//! performs the writes.
use vstd::prelude::*;
use crate::num::{dec_chars, dec_str, digits_value, lemma_dec_str};
use crate::text::{chars_eq, chars_of, push_char, string_of};

verus! {

/// Widest panel the thickness control offers.
pub const MAX_PANEL_THICKNESS: u32 = 200;

/// Corner radius of a panel that neither floats nor stretches, in a round theme.
pub const SQUARE_RADIUS_CAP: u32 = 12;

/// `Info::id` of a panel's page. Stable across runs, so that reopening Settings returns to
/// the page it was left on.
pub fn page_id(panel: &str) -> (id: String)
    ensures
        id@ == "panel:"@ + panel@,
{
    let mut v = chars_of("panel:");
    let p = chars_of(panel);
    let ghost start = v@;
    let mut i: usize = 0;
    while i < p.len()
        invariant
            i <= p@.len(),
            v@ == start + p@.subrange(0, i as int),
        decreases p@.len() - i,
    {
        proof {
            assert(p@.subrange(0, i + 1) =~= p@.subrange(0, i as int).push(p@[i as int]));
        }
        v.push(p[i]);
        i += 1;
    }
    proof {
        assert(p@.subrange(0, p@.len() as int) =~= p@);
    }
    string_of(v.as_slice())
}

/// The panel background a page offers.
#[derive(Debug, Copy, Clone, PartialEq, Eq)]
pub enum Appearance {
    Match,
    Light,
    Dark,
}

pub open spec fn min_u32(a: u32, b: u32) -> u32 {
    if a <= b {
        a
    } else {
        b
    }
}

/// The radius a panel gets from its shape: a floating panel (with a gap to the edge)
/// takes the theme's extra-large radius; one that neither floats nor stretches is
/// rounded, at most 12; one stretched to the edges is square.
pub open spec fn shape_radius(anchor_gap: bool, expand_to_edges: bool, radius_xl: u32) -> u32 {
    if anchor_gap {
        radius_xl
    } else if !expand_to_edges {
        min_u32(radius_xl, SQUARE_RADIUS_CAP)
    } else {
        0
    }
}

/// The radius restored by "reset": the theme's extra-large radius for a floating
/// panel, 12 in a round theme for one that does not stretch, else square.
pub open spec fn reset_radius_of(anchor_gap: bool, round_theme: bool, expand_to_edges: bool, radius_xl: u32) -> u32 {
    if anchor_gap {
        radius_xl
    } else if round_theme && !expand_to_edges {
        SQUARE_RADIUS_CAP
    } else {
        0
    }
}

pub fn reset_radius(anchor_gap: bool, round_theme: bool, expand_to_edges: bool, radius_xl: u32) -> (r: u32)
    ensures
        r == reset_radius_of(anchor_gap, round_theme, expand_to_edges, radius_xl),
{
    if anchor_gap {
        radius_xl
    } else if round_theme && !expand_to_edges {
        SQUARE_RADIUS_CAP
    } else {
        0
    }
}

/// Auto-hide on: the panel stops reserving its strip of screen and hides when a window
/// overlaps it. Off: it reserves the strip and never hides. Returns
/// `(exclusive_zone, hide_on_overlap)`.
pub fn autohide(enabled: bool) -> (r: (bool, bool))
    ensures
        r == (!enabled, enabled),
{
    (!enabled, enabled)
}

/// Turning the gap to the screen edge on or off: the margin follows (4 with a gap,
/// 0 without), and so does the radius. Returns `(margin, radius)`.
pub fn anchor_gap_change(enabled: bool, expand_to_edges: bool, radius_xl: u32) -> (r: (u16, u32))
    ensures
        r.0 == (if enabled {
            4u16
        } else {
            0u16
        }),
        r.1 == shape_radius(enabled, expand_to_edges, radius_xl),
{
    let margin: u16 = if enabled {
        4
    } else {
        0
    };
    let radius = if enabled {
        radius_xl
    } else if !expand_to_edges {
        if radius_xl <= SQUARE_RADIUS_CAP {
            radius_xl
        } else {
            SQUARE_RADIUS_CAP
        }
    } else {
        0
    };
    (margin, radius)
}

/// Stretching the panel to the edges or not: the radius follows.
pub fn expand_change(enabled: bool, anchor_gap: bool, radius_xl: u32) -> (radius: u32)
    ensures
        radius == shape_radius(anchor_gap, enabled, radius_xl),
{
    if anchor_gap {
        radius_xl
    } else if !enabled {
        if radius_xl <= SQUARE_RADIUS_CAP {
            radius_xl
        } else {
            SQUARE_RADIUS_CAP
        }
    } else {
        0
    }
}

/// What choosing a look writes besides the look itself, so that the panel takes the
/// shape the look is defined by.
pub struct LookChange {
    /// Option 1 is the island look; anything else is the bar.
    pub island: bool,
    pub expand_to_edges: bool,
    pub padding: u32,
    pub radius: u32,
}

/// The bar stretches to the edges with no padding; the island does not stretch and has
/// a padding of 4; the radius then follows the shape.
pub fn look_change(index: usize, anchor_gap: bool, radius_xl: u32) -> (c: LookChange)
    ensures
        c.island == (index == 1),
        c.expand_to_edges == !c.island,
        c.padding == (if c.island {
            4u32
        } else {
            0u32
        }),
        c.radius == shape_radius(anchor_gap, c.expand_to_edges, radius_xl),
{
    let island = index == 1;
    let radius = if anchor_gap {
        radius_xl
    } else if island {
        if radius_xl <= SQUARE_RADIUS_CAP {
            radius_xl
        } else {
            SQUARE_RADIUS_CAP
        }
    } else {
        0
    };
    LookChange {
        island,
        expand_to_edges: !island,
        padding: if island {
            4
        } else {
            0
        },
        radius,
    }
}

/// The shape a new panel starts with: the look chosen in the dialog (option 1 is the
/// island), a margin-less panel with the island's padding of 4 and a radius of 12, or a
/// square bar stretched to the edges.
pub fn new_panel_shape(look: usize) -> (c: LookChange)
    ensures
        c.island == (look == 1),
        c.expand_to_edges == !c.island,
        c.padding == (if c.island {
            4u32
        } else {
            0u32
        }),
        c.radius == (if c.island {
            SQUARE_RADIUS_CAP
        } else {
            0u32
        }),
{
    let island = look == 1;
    LookChange {
        island,
        expand_to_edges: !island,
        padding: if island {
            4
        } else {
            0
        },
        radius: if island {
            SQUARE_RADIUS_CAP
        } else {
            0
        },
    }
}

/// How round the theme's corners are.
#[derive(Debug, Copy, Clone, PartialEq, Eq)]
pub enum Roundness {
    Round,
    SlightlyRound,
    Square,
}

/// How much room the theme leaves between things.
#[derive(Debug, Copy, Clone, PartialEq, Eq)]
pub enum Density {
    Compact,
    Standard,
    Spacious,
}

/// The spacing "reset" restores: 4 in a spacious theme, else none.
pub fn default_spacing(density: Density) -> (r: u32)
    ensures
        r == (if density == Density::Spacious {
            4u32
        } else {
            0u32
        }),
{
    match density {
        Density::Compact => 0,
        Density::Standard => 0,
        Density::Spacious => 4,
    }
}

/// The padding "reset" restores to an island: 4 unless the theme is square.
pub fn island_padding(roundness: Roundness) -> (r: u32)
    ensures
        r == (if roundness == Roundness::Square {
            0u32
        } else {
            4u32
        }),
{
    match roundness {
        Roundness::Round => 4,
        Roundness::SlightlyRound => 4,
        Roundness::Square => 0,
    }
}

/// The panel thickness a request asks for, clamped to what the control offers.
pub fn thickness(px: u32, min_thickness: u32) -> (t: u32)
    requires
        min_thickness <= MAX_PANEL_THICKNESS,
    ensures
        t == (if px < min_thickness {
            min_thickness
        } else if px > MAX_PANEL_THICKNESS {
            MAX_PANEL_THICKNESS
        } else {
            px
        }),
{
    if px < min_thickness {
        min_thickness
    } else if px > MAX_PANEL_THICKNESS {
        MAX_PANEL_THICKNESS
    } else {
        px
    }
}

/// What a thickness request writes: the clamped size, and no size of their own for the
/// centre and the wings, which would otherwise keep their applets at the old height.
pub struct SizeChange {
    pub size: u32,
    pub size_center: Option<u32>,
    pub size_wings: Option<u32>,
}

/// A thickness request: the panel takes the clamped size, and the centre and wings
/// drop any size of their own.
pub fn thickness_change(px: u32, min_thickness: u32) -> (c: SizeChange)
    requires
        min_thickness <= MAX_PANEL_THICKNESS,
    ensures
        c.size == (if px < min_thickness {
            min_thickness
        } else if px > MAX_PANEL_THICKNESS {
            MAX_PANEL_THICKNESS
        } else {
            px
        }),
        c.size_center is None,
        c.size_wings is None,
{
    SizeChange { size: thickness(px, min_thickness), size_center: None, size_wings: None }
}

/// Which outputs a panel shows on: entry 0 of the list is "all displays".
pub enum OutputChoice {
    All,
    Named(usize),
}

pub fn output_choice(index: usize) -> (c: OutputChoice)
    ensures
        index == 0 ==> c is All,
        index != 0 ==> c == OutputChoice::Named(index),
{
    if index == 0 {
        OutputChoice::All
    } else {
        OutputChoice::Named(index)
    }
}

/// Opacity changes arrive continuously while a slider is dragged; they are written at
/// most once per interval.
pub enum OpacityEvent {
    /// The slider moved.
    Request,
    /// The interval after the first unwritten move has passed.
    Apply,
}

pub enum OpacityAction {
    /// Keep the value for later.
    Hold,
    /// Keep the value and schedule an `Apply` after the interval.
    Schedule,
    /// Write the value now.
    Write,
}

/// The debounce: a move with none pending schedules an apply; a move with one pending
/// waits for it; the apply writes. Returns the new "pending" flag and the action.
pub fn opacity_step(pending: bool, event: OpacityEvent) -> (r: (bool, OpacityAction))
    ensures
        match event {
            OpacityEvent::Request => if pending {
                r.0 && r.1 is Hold
            } else {
                r.0 && r.1 is Schedule
            },
            OpacityEvent::Apply => !r.0 && r.1 is Write,
        },
{
    match event {
        OpacityEvent::Request => if pending {
            (true, OpacityAction::Hold)
        } else {
            (true, OpacityAction::Schedule)
        },
        OpacityEvent::Apply => (false, OpacityAction::Write),
    }
}

/// Drops the first output named `name` from the list; the list is unchanged when there
/// is none.
pub fn remove_output(outputs: &mut Vec<String>, name: &str)
    ensures
        ({
            let o = old(outputs)@.map_values(|s: String| s@);
            let f = final(outputs)@.map_values(|s: String| s@);
            if o.contains(name@) {
                exists|k: int| 0 <= k < o.len() && o[k] == name@ && (forall|j: int| 0 <= j < k ==> o[j] != name@) && f == o.remove(k)
            } else {
                f == o
            }
        }),
{
    let n = chars_of(name);
    let mut i: usize = 0;
    while i < outputs.len()
        invariant
            i <= outputs@.len(),
            outputs@ == old(outputs)@,
            n@ == name@,
            forall|j: int| 0 <= j < i ==> outputs@[j]@ != name@,
        decreases outputs@.len() - i,
    {
        let c = chars_of(outputs[i].as_str());
        if crate::text::chars_eq(c.as_slice(), n.as_slice()) {
            let ghost before = outputs@;
            outputs.remove(i);
            proof {
                let o = before.map_values(|s: String| s@);
                assert(outputs@.map_values(|s: String| s@) =~= o.remove(i as int));
                assert(o[i as int] == name@);
            }
            return;
        }
        i += 1;
    }
    proof {
        let o = outputs@.map_values(|s: String| s@);
        if o.contains(name@) {
            let k = choose|k: int| 0 <= k < o.len() && o[k] == name@;
            assert(outputs@[k]@ == name@);
        }
    }
}

/// The position of the first label that reads `chosen`, if any: how a dropdown's
/// choice is turned back into the anchor, background or display it was listed for.
pub fn find_label(labels: &Vec<String>, chosen: &str) -> (r: Option<usize>)
    ensures
        match r {
            Some(k) => k < labels@.len() && labels@[k as int]@ == chosen@ && forall|j: int|
                0 <= j < k ==> labels@[j]@ != chosen@,
            None => !names_view(labels@).contains(chosen@),
        },
{
    let n = chars_of(chosen);
    let mut i: usize = 0;
    while i < labels.len()
        invariant
            i <= labels@.len(),
            n@ == chosen@,
            forall|j: int| 0 <= j < i ==> labels@[j]@ != chosen@,
        decreases labels@.len() - i,
    {
        let c = chars_of(labels[i].as_str());
        if chars_eq(c.as_slice(), n.as_slice()) {
            return Some(i);
        }
        i += 1;
    }
    proof {
        if names_view(labels@).contains(chosen@) {
            let j = choose|j: int| 0 <= j < names_view(labels@).len() && names_view(labels@)[j] == chosen@;
            assert(labels@[j]@ == chosen@);
        }
    }
    None
}

/// The panel list once `name` is removed: every entry of that name goes, the others
/// stay in order.
pub fn without_name(names: &Vec<String>, name: &str) -> (out: Vec<String>)
    ensures
        names_view(out@) == names_view(names@).filter(|s: Seq<char>| s != name@),
{
    let n = chars_of(name);
    let ghost nv = names_view(names@);
    let mut out: Vec<String> = Vec::new();
    let mut i: usize = 0;
    proof {
        assert(nv.take(0) =~= Seq::<Seq<char>>::empty());
        assert(names_view(out@) =~= Seq::<Seq<char>>::empty());
    }
    while i < names.len()
        invariant
            i <= names@.len(),
            n@ == name@,
            nv == names_view(names@),
            names_view(out@) == nv.take(i as int).filter(|s: Seq<char>| s != name@),
        decreases names@.len() - i,
    {
        proof {
            reveal(Seq::filter);
            assert(nv.take(i + 1).drop_last() =~= nv.take(i as int));
            assert(nv.take(i + 1).last() == names@[i as int]@);
        }
        let c = chars_of(names[i].as_str());
        if !chars_eq(c.as_slice(), n.as_slice()) {
            let ghost before = out@;
            out.push(names[i].clone());
            proof {
                assert(names_view(out@) =~= names_view(before).push(names@[i as int]@));
            }
        }
        i += 1;
    }
    proof {
        assert(nv.take(nv.len() as int) =~= nv);
    }
    out
}

/// The look a panel is configured with.
#[derive(Debug, Copy, Clone, PartialEq, Eq)]
pub enum PanelLook {
    Bar,
    Island,
    Auto,
}

/// The entry of the look dropdown that shows a look: the island is entry 1; the bar,
/// and the automatic look, which draws as a bar, entry 0.
pub fn look_index(look: PanelLook) -> (r: usize)
    ensures
        r == (if look == PanelLook::Island {
            1usize
        } else {
            0usize
        }),
{
    match look {
        PanelLook::Island => 1,
        PanelLook::Bar => 0,
        PanelLook::Auto => 0,
    }
}

/// The background a panel is configured with.
#[derive(Debug, Copy, Clone, PartialEq, Eq)]
pub enum Background {
    ThemeDefault,
    Light,
    Dark,
    /// A colour of its own, which the dropdown does not offer.
    Color,
}

/// The entry of the appearance dropdown that shows a background: matching the theme,
/// light, dark; none for a colour of its own.
pub fn background_index(background: Background) -> (r: Option<usize>)
    ensures
        r == (match background {
            Background::ThemeDefault => Some(0usize),
            Background::Light => Some(1usize),
            Background::Dark => Some(2usize),
            Background::Color => None,
        }),
{
    match background {
        Background::ThemeDefault => Some(0),
        Background::Light => Some(1),
        Background::Dark => Some(2),
        Background::Color => None,
    }
}

/// The displays a panel is configured to show on.
pub enum OutputSetting {
    All,
    /// The display that has focus, which the dropdown does not offer.
    Active,
    Named(String),
}

/// The entry of the display dropdown that shows the setting: entry 0 is "all displays",
/// a named display is the first entry with its name, and the active display has none.
pub fn output_index(setting: &OutputSetting, outputs: &Vec<String>) -> (r: Option<usize>)
    ensures
        match setting {
            OutputSetting::All => r == Some(0usize),
            OutputSetting::Active => r is None,
            OutputSetting::Named(n) => match r {
                Some(k) => k < outputs@.len() && outputs@[k as int]@ == n@ && forall|j: int|
                    0 <= j < k ==> outputs@[j]@ != n@,
                None => !names_view(outputs@).contains(n@),
            },
        },
{
    match setting {
        OutputSetting::All => Some(0),
        OutputSetting::Active => None,
        OutputSetting::Named(n) => find_label(outputs, n.as_str()),
    }
}

// ---------------------------------------------------------------- new panels

/// `Panel2`, `Panel3`, ...: the names handed to new panels (`Panel` is the shipped one).
pub open spec fn panel_name(n: nat) -> Seq<char> {
    "Panel"@ + dec_str(n)
}

pub open spec fn names_view(v: Seq<String>) -> Seq<Seq<char>> {
    v.map_values(|s: String| s@)
}

proof fn lemma_panel_name_injective(a: nat, b: nat)
    requires
        panel_name(a) == panel_name(b),
    ensures
        a == b,
{
    reveal_strlit("Panel");
    lemma_dec_str(a);
    lemma_dec_str(b);
    assert(panel_name(a).subrange(5, panel_name(a).len() as int) =~= dec_str(a));
    assert(panel_name(b).subrange(5, panel_name(b).len() as int) =~= dec_str(b));
}

/// `m` different panel names cannot all be among fewer than `m` names.
proof fn lemma_names_fit(taken: Seq<Seq<char>>, m: nat)
    requires
        forall|k: nat| 2 <= k < 2 + m ==> taken.contains(#[trigger] panel_name(k)),
    ensures
        m <= taken.len(),
    decreases m,
{
    if m > 0 {
        let last = panel_name((1 + m) as nat);
        assert(taken.contains(last));
        let i = choose|i: int| 0 <= i < taken.len() && taken[i] == last;
        let rest = taken.remove(i);
        assert forall|k: nat| 2 <= k < 2 + (m - 1) implies rest.contains(#[trigger] panel_name(k)) by {
            assert(taken.contains(panel_name(k)));
            let j = choose|j: int| 0 <= j < taken.len() && taken[j] == panel_name(k);
            if j == i {
                lemma_panel_name_injective(k, (1 + m) as nat);
            }
            if j < i {
                assert(rest[j] == taken[j]);
            } else {
                assert(rest[j - 1] == taken[j]);
            }
        }
        lemma_names_fit(rest, (m - 1) as nat);
    }
}

fn contains_name(names: &Vec<String>, name: &[char]) -> (r: bool)
    ensures
        r == names_view(names@).contains(name@),
{
    let mut i: usize = 0;
    while i < names.len()
        invariant
            i <= names@.len(),
            forall|j: int| 0 <= j < i ==> names@[j]@ != name@,
        decreases names@.len() - i,
    {
        let c = chars_of(names[i].as_str());
        if chars_eq(c.as_slice(), name) {
            proof {
                assert(names_view(names@)[i as int] == name@);
            }
            return true;
        }
        i += 1;
    }
    proof {
        if names_view(names@).contains(name@) {
            let j = choose|j: int| 0 <= j < names_view(names@).len() && names_view(names@)[j] == name@;
            assert(names@[j]@ == name@);
        }
    }
    false
}

/// The name for a new panel: the first of `Panel2`, `Panel3`, ... that no panel has.
pub fn free_name(taken: &Vec<String>) -> (name: String)
    requires
        taken@.len() < u64::MAX - 2,
    ensures
        exists|n: nat|
            2 <= n && name@ == panel_name(n) && !names_view(taken@).contains(name@) && forall|k: nat|
                2 <= k < n ==> names_view(taken@).contains(#[trigger] panel_name(k)),
{
    let ghost tv = names_view(taken@);
    let mut n: u64 = 2;
    loop
        invariant
            2 <= n <= taken@.len() + 2,
            taken@.len() < u64::MAX - 2,
            tv == names_view(taken@),
            forall|k: nat| 2 <= k < n ==> tv.contains(#[trigger] panel_name(k)),
        decreases taken@.len() + 2 - n,
    {
        let mut v = chars_of("Panel");
        let d = dec_chars(n);
        let mut j: usize = 0;
        let ghost start = v@;
        while j < d.len()
            invariant
                j <= d@.len(),
                v@ == start + d@.subrange(0, j as int),
            decreases d@.len() - j,
        {
            proof {
                assert(d@.subrange(0, j + 1) =~= d@.subrange(0, j as int).push(d@[j as int]));
            }
            v.push(d[j]);
            j += 1;
        }
        proof {
            assert(d@.subrange(0, d@.len() as int) =~= d@);
            assert(v@ == panel_name(n as nat));
        }
        if !contains_name(taken, v.as_slice()) {
            return string_of(v.as_slice());
        }
        proof {
            if n == taken@.len() + 2 {
                assert forall|k: nat| 2 <= k < 2 + (taken@.len() + 1) implies tv.contains(#[trigger] panel_name(k)) by {
                    if k == n {
                    }
                }
                lemma_names_fit(tv, (taken@.len() + 1) as nat);
            }
        }
        n += 1;
    }
}

} // verus!
