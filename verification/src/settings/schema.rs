//! The applet settings schema in the form the page renders: every label reduced to one
//! language, every setting given a slot in the page's value vector.
use vstd::prelude::*;
use super::l10n::{resolve, resolve_in, resolve_opt, strings, L10n};
use super::raw;
use crate::text::{chars_of, trim_ws, trimmed, Class};

verus! {

/// The schema language this build understands. A file declaring more still produces a
/// page - one that says so - because a silent omission reads as "this applet has no
/// settings", which is a different and wrong statement.
pub const SUPPORTED: u32 = 1;

/// Where the settings are written. Not necessarily the applet's own id: the
/// notifications applet configures the daemon, the tiling applet the compositor.
pub struct ConfigRef {
    pub id: String,
    pub version: u64,
}

/// A resolved schema, ready to render.
pub struct Schema {
    pub config: ConfigRef,
    pub groups: Vec<Group>,
    /// Number of `Setting` rows, i.e. the length of the page's value vector.
    pub slots: usize,
    /// The file wants a newer Settings than this one.
    pub too_new: bool,
}

pub struct Group {
    pub title: String,
    pub rows: Vec<Row>,
}

pub enum Row {
    Setting(Setting),
    /// Read-only prose: the escape hatch for a setting that exists but is not editable
    /// here.
    Note(String),
    /// A button to another page of Settings.
    Link { page: String, label: String },
    /// A button that launches a program.
    External { command: String, label: String },
}

pub struct Setting {
    pub key: String,
    pub label: String,
    pub description: Option<String>,
    pub control: Control,
    /// Raw RON text. `None` means the schema declared no default, so "reset" falls back
    /// to whatever the system default directory holds.
    pub default: Option<String>,
    /// Index into the page's value vector.
    pub slot: usize,
}

pub enum Control {
    Toggle,
    Choice { items: Vec<ChoiceItem>, style: ChoiceStyle },
    Number(Number),
    Slider(Slider),
    Text(TextField),
}

/// A number field. The bounds and the step are the bit patterns of their `f64` values.
pub struct Number {
    pub min_bits: u64,
    pub max_bits: u64,
    pub step_bits: u64,
    pub decimals: u8,
    /// The value may be unset (`None` in the config).
    pub optional: bool,
    pub suffix: Option<String>,
}

/// A slider. The bounds and the step are the bit patterns of their `f64` values.
pub struct Slider {
    pub min_bits: u64,
    pub max_bits: u64,
    pub step_bits: u64,
    pub decimals: u8,
    pub min_label: Option<String>,
    pub max_label: Option<String>,
}

pub struct TextField {
    pub placeholder: Option<String>,
    pub max_len: Option<u32>,
}

pub struct ChoiceItem {
    /// Raw RON text, written to the config verbatim: `Celsius`, `10`, `"large"`.
    pub value: String,
    pub label: String,
}

#[derive(Clone, Copy, Debug, PartialEq, Eq)]
pub enum ChoiceStyle {
    /// One row per option. Reads better and needs no popup, but eats vertical space.
    Radio,
    Dropdown,
    /// Radio up to `RADIO_LIMIT` options, a dropdown beyond it.
    Auto,
}

impl Default for ChoiceStyle {
    fn default() -> (s: Self)
        ensures
            s == ChoiceStyle::Auto,
    {
        ChoiceStyle::Auto
    }
}

/// Above this many options a column of radio rows stops being scannable.
pub const RADIO_LIMIT: usize = 4;

pub open spec fn style_for(style: ChoiceStyle, items: nat) -> ChoiceStyle {
    match style {
        ChoiceStyle::Auto => if items > RADIO_LIMIT {
            ChoiceStyle::Dropdown
        } else {
            ChoiceStyle::Radio
        },
        other => other,
    }
}

impl ChoiceStyle {
    pub fn resolve(self, items: usize) -> (s: Self)
        ensures
            s == style_for(self, items as nat),
    {
        match self {
            ChoiceStyle::Auto => if items > RADIO_LIMIT {
                ChoiceStyle::Dropdown
            } else {
                ChoiceStyle::Radio
            },
            other => other,
        }
    }
}

// ---------------------------------------------------------------- RON values

/// Whether the config layer can store a text: `ron::value::RawValue::from_ron` accepts it.
pub uninterp spec fn ron_value(text: Seq<char>) -> bool;

/// Is this text something the config layer can store? Calls
/// `ron::value::RawValue::from_ron` and reports whether it succeeded; what RON accepts
/// is not restated here, only named (`ron_value`). It accepts a bare identifier, so unit
/// enum variants (`Bottom`, `Celsius`) pass without the author quoting them.
#[verifier::external_body]
fn is_value(text: &str) -> (b: bool)
    ensures
        b == ron_value(text@),
{
    ron::value::RawValue::from_ron(text).is_ok()
}

// ---------------------------------------------------------------- conversion

pub open spec fn opt_text(o: Option<String>) -> Option<Seq<char>> {
    match o {
        Some(s) => Some(s@),
        None => None,
    }
}

/// An optional label resolved: no text when absent or when it resolves to nothing.
pub open spec fn opt_label(l: Option<super::l10n::L10n>, langs: Seq<Seq<char>>) -> Option<Seq<char>> {
    match l {
        Some(d) => {
            let t = resolve_in(d@, langs);
            if t.len() == 0 {
                None
            } else {
                Some(t)
            }
        },
        None => None,
    }
}

fn label_opt(l: &Option<L10n>, languages: &Vec<String>) -> (r: Option<String>)
    requires
        raw::opt_wf(*l),
    ensures
        opt_text(r) == opt_label(*l, strings(languages@)),
{
    match l {
        Some(d) => resolve_opt(Some(d), languages),
        None => None,
    }
}

/// The options whose value is storable, in order.
pub open spec fn usable_items(items: Seq<raw::ChoiceItem>) -> Seq<raw::ChoiceItem>
    decreases items.len(),
{
    if items.len() == 0 {
        seq![]
    } else {
        let p = usable_items(items.drop_last());
        if ron_value(items.last().value@) {
            p.push(items.last())
        } else {
            p
        }
    }
}

/// `out` is the control `c` converts to. A choice keeps the options whose value is
/// storable, labels resolved, and is dropped when none is left: a control with nothing
/// to choose cannot be operated. A number field or a slider is dropped when its range
/// cannot be driven, for the same reason.
pub open spec fn control_ok(c: raw::Control, langs: Seq<Seq<char>>, out: Option<Control>) -> bool {
    match c {
        raw::Control::Toggle => out matches Some(Control::Toggle),
        raw::Control::Choice { items, style } => choice_ok(items@, style, langs, out),
        raw::Control::Number { range, decimals, optional, suffix } => if !range.usable {
            out is None
        } else {
            match out {
                Some(Control::Number(n)) => number_ok(range, decimals, optional, suffix, langs, n),
                _ => false,
            }
        },
        raw::Control::Slider { range, decimals, min_label, max_label } => if !range.usable {
            out is None
        } else {
            match out {
                Some(Control::Slider(n)) => slider_ok(range, decimals, min_label, max_label, langs, n),
                _ => false,
            }
        },
        raw::Control::Text { placeholder, max_len } => match out {
            Some(Control::Text(t)) => opt_text(t.placeholder) == opt_label(placeholder, langs)
                && t.max_len == max_len,
            _ => false,
        },
    }
}

pub open spec fn choice_ok(items: Seq<raw::ChoiceItem>, style: ChoiceStyle, langs: Seq<Seq<char>>, out: Option<Control>) -> bool {
    let kept = usable_items(items);
    if kept.len() == 0 {
        out is None
    } else {
        match out {
            Some(Control::Choice { items: x, style: s }) => {
                &&& x@.len() == kept.len()
                &&& forall|j: int| 0 <= j < kept.len() ==> #[trigger] x@[j].value@ == kept[j].value@
                    && x@[j].label@ == resolve_in(kept[j].label@, langs)
                &&& s == style_for(style, kept.len())
            },
            _ => false,
        }
    }
}

pub open spec fn number_ok(
    range: raw::Range,
    decimals: u8,
    optional: bool,
    suffix: Option<L10n>,
    langs: Seq<Seq<char>>,
    n: Number,
) -> bool {
    &&& n.min_bits == range.min_bits
    &&& n.max_bits == range.max_bits
    &&& n.step_bits == range.step_bits
    &&& n.decimals == decimals
    &&& n.optional == optional
    &&& opt_text(n.suffix) == opt_label(suffix, langs)
}

pub open spec fn slider_ok(
    range: raw::Range,
    decimals: u8,
    min_label: Option<L10n>,
    max_label: Option<L10n>,
    langs: Seq<Seq<char>>,
    n: Slider,
) -> bool {
    &&& n.min_bits == range.min_bits
    &&& n.max_bits == range.max_bits
    &&& n.step_bits == range.step_bits
    &&& n.decimals == decimals
    &&& opt_text(n.min_label) == opt_label(min_label, langs)
    &&& opt_text(n.max_label) == opt_label(max_label, langs)
}

/// The usable options of a choice, labels resolved.
fn usable_options(items: &Vec<raw::ChoiceItem>, languages: &Vec<String>) -> (kept: Vec<ChoiceItem>)
    requires
        forall|q: int| 0 <= q < items@.len() ==> #[trigger] items@[q].wf(),
    ensures
        kept@.len() == usable_items(items@).len(),
        forall|j: int| 0 <= j < kept@.len() ==> #[trigger] kept@[j].value@ == usable_items(items@)[j].value@
            && kept@[j].label@ == resolve_in(usable_items(items@)[j].label@, strings(languages@)),
{
    let ghost langs = strings(languages@);
    let mut kept: Vec<ChoiceItem> = Vec::new();
    let mut i: usize = 0;
    while i < items.len()
        invariant
            i <= items@.len(),
            forall|q: int| 0 <= q < items@.len() ==> #[trigger] items@[q].wf(),
            langs == strings(languages@),
            kept@.len() == usable_items(items@.subrange(0, i as int)).len(),
            forall|j: int| 0 <= j < kept@.len() ==> #[trigger] kept@[j].value@ == usable_items(items@.subrange(0, i as int))[j].value@
                && kept@[j].label@ == resolve_in(usable_items(items@.subrange(0, i as int))[j].label@, langs),
        decreases items@.len() - i,
    {
        let ghost pre = usable_items(items@.subrange(0, i as int));
        proof {
            assert(items@.subrange(0, i + 1).drop_last() =~= items@.subrange(0, i as int));
            assert(items@.subrange(0, i + 1).last() == items@[i as int]);
            assert(items@[i as int].wf());
        }
        let item = &items[i];
        if is_value(item.value.as_str()) {
            let label = resolve(&item.label, languages);
            let value = item.value.clone();
            let ghost before = kept@;
            kept.push(ChoiceItem { value, label });
            proof {
                let now = usable_items(items@.subrange(0, i + 1));
                assert(now == pre.push(items@[i as int]));
                assert forall|j: int| 0 <= j < kept@.len() implies #[trigger] kept@[j].value@ == now[j].value@
                    && kept@[j].label@ == resolve_in(now[j].label@, langs) by {
                    if j < before.len() {
                        assert(kept@[j] == before[j]);
                        assert(now[j] == pre[j]);
                    }
                }
            }
        }
        i += 1;
    }
    proof {
        assert(items@.subrange(0, items@.len() as int) =~= items@);
    }
    kept
}

/// A choice over its usable options, or nothing when none is left.
fn convert_choice(items: &Vec<raw::ChoiceItem>, style: ChoiceStyle, languages: &Vec<String>) -> (r: Option<Control>)
    requires
        forall|q: int| 0 <= q < items@.len() ==> #[trigger] items@[q].wf(),
    ensures
        choice_ok(items@, style, strings(languages@), r),
{
    let kept = usable_options(items, languages);
    if kept.len() == 0 {
        return None;
    }
    let s = style.resolve(kept.len());
    let ghost kv = kept@;
    let r = Some(Control::Choice { items: kept, style: s });
    proof {
        let u = usable_items(items@);
        assert(r->0->items@ == kv);
        assert forall|j: int| 0 <= j < u.len() implies #[trigger] kv[j].value@ == u[j].value@ && kv[j].label@
            == resolve_in(u[j].label@, strings(languages@)) by {}
    }
    r
}

pub fn convert_control(control: raw::Control, languages: &Vec<String>) -> (out: Option<Control>)
    requires
        control.wf(),
    ensures
        control_ok(control, strings(languages@), out),
{
    match control {
        raw::Control::Toggle => Some(Control::Toggle),
        raw::Control::Choice { items, style } => convert_choice(&items, style, languages),
        raw::Control::Number { range, decimals, optional, suffix } => {
            if !range.usable {
                return None;
            }
            let n = Number {
                min_bits: range.min_bits,
                max_bits: range.max_bits,
                step_bits: range.step_bits,
                decimals,
                optional,
                suffix: label_opt(&suffix, languages),
            };
            Some(Control::Number(n))
        },
        raw::Control::Slider { range, decimals, min_label, max_label } => {
            if !range.usable {
                return None;
            }
            let n = Slider {
                min_bits: range.min_bits,
                max_bits: range.max_bits,
                step_bits: range.step_bits,
                decimals,
                min_label: label_opt(&min_label, languages),
                max_label: label_opt(&max_label, languages),
            };
            Some(Control::Slider(n))
        },
        raw::Control::Text { placeholder, max_len } => {
            let t = TextField { placeholder: label_opt(&placeholder, languages), max_len };
            Some(Control::Text(t))
        },
    }
}

/// `out` is the row `row` converts to, the setting (if any) taking slot `slot`. A
/// default the config layer would reject is dropped - "reset" would otherwise write
/// garbage into a config this page does not own - and a setting whose control is
/// dropped is dropped with it. A launcher with no command (nothing but whitespace) is
/// dropped: it would render a button that does nothing at all.
pub open spec fn row_ok(row: raw::Row, langs: Seq<Seq<char>>, slot: usize, out: Option<Row>) -> bool {
    match row {
        raw::Row::Note { text } => out matches Some(Row::Note(t)) && t@ == resolve_in(text@, langs),
        raw::Row::Link { page, label } => {
            &&& out matches Some(Row::Link { page: p, label: l })
            &&& p@ == page@
            &&& l@ == resolve_in(label@, langs)
        },
        raw::Row::External { command, label } => if trim_ws(command@).len() == 0 {
            out is None
        } else {
            &&& out matches Some(Row::External { command: e, label: l })
            &&& e@ == command@
            &&& l@ == resolve_in(label@, langs)
        },
        raw::Row::Setting { key, label, description, control, default } => {
            match out {
                Some(Row::Setting(s)) => {
                    &&& s.key@ == key@
                    &&& s.label@ == resolve_in(label@, langs)
                    &&& opt_text(s.description) == opt_label(description, langs)
                    &&& control_ok(control, langs, Some(s.control))
                    &&& opt_text(s.default) == (match default {
                        Some(d) => if ron_value(d@) {
                            Some(d@)
                        } else {
                            None
                        },
                        None => None,
                    })
                    &&& s.slot == slot
                },
                None => control_ok(control, langs, None),
                _ => false,
            }
        },
    }
}

/// Whether `row` takes a slot: a setting whose control survives.
pub open spec fn takes_slot(row: raw::Row, langs: Seq<Seq<char>>) -> bool {
    match row {
        raw::Row::Setting { control, .. } => match control {
            raw::Control::Toggle => true,
            raw::Control::Choice { items, .. } => usable_items(items@).len() > 0,
            raw::Control::Number { range, .. } => range.usable,
            raw::Control::Slider { range, .. } => range.usable,
            raw::Control::Text { .. } => true,
        },
        _ => false,
    }
}

/// Whether `row` survives conversion: notes and links always, a launcher with a
/// command, a setting that takes a slot.
pub open spec fn row_kept(row: raw::Row, langs: Seq<Seq<char>>) -> bool {
    match row {
        raw::Row::Note { .. } => true,
        raw::Row::Link { .. } => true,
        raw::Row::External { command, .. } => trim_ws(command@).len() > 0,
        raw::Row::Setting { .. } => takes_slot(row, langs),
    }
}

pub fn convert(row: raw::Row, languages: &Vec<String>, slots: &mut usize) -> (out: Option<Row>)
    requires
        row.wf(),
        *old(slots) < usize::MAX,
    ensures
        row_ok(row, strings(languages@), *old(slots), out),
        *final(slots) == *old(slots) + (if takes_slot(row, strings(languages@)) {
            1usize
        } else {
            0usize
        }),
        out is Some <==> row_kept(row, strings(languages@)),
{
    match row {
        raw::Row::Note { text } => Some(Row::Note(resolve(&text, languages))),
        raw::Row::Link { page, label } => Some(Row::Link { page, label: resolve(&label, languages) }),
        raw::Row::External { command, label } => {
            let c = chars_of(command.as_str());
            let t = trimmed(c.as_slice(), &Class::Ws);
            if t.len() == 0 {
                return None;
            }
            Some(Row::External { command, label: resolve(&label, languages) })
        },
        raw::Row::Setting { key, label, description, control, default } => {
            let default = match default {
                Some(d) => if is_value(d.as_str()) {
                    Some(d)
                } else {
                    None
                },
                None => None,
            };
            let ghost c0 = control;
            let control = match convert_control(control, languages) {
                Some(c) => c,
                None => {
                    return None;
                },
            };
            let slot = *slots;
            *slots = *slots + 1;
            let description = label_opt(&description, languages);
            Some(Row::Setting(Setting {
                key,
                label: resolve(&label, languages),
                description,
                control,
                default,
                slot,
            }))
        },
    }
}

// ---------------------------------------------------------------- whole schemas

/// The rows of a group that survive conversion, in order: the readable ones that are
/// notes or keep their control.
pub open spec fn kept_rows(rows: Seq<Option<raw::Row>>, langs: Seq<Seq<char>>) -> Seq<raw::Row>
    decreases rows.len(),
{
    if rows.len() == 0 {
        seq![]
    } else {
        let p = kept_rows(rows.drop_last(), langs);
        match rows.last() {
            Some(r) => if row_kept(r, langs) {
                p.push(r)
            } else {
                p
            },
            None => p,
        }
    }
}

/// Number of rows that take a slot.
pub open spec fn slot_count(rows: Seq<raw::Row>, langs: Seq<Seq<char>>) -> nat
    decreases rows.len(),
{
    if rows.len() == 0 {
        0
    } else {
        slot_count(rows.drop_last(), langs) + if takes_slot(rows.last(), langs) {
            1nat
        } else {
            0nat
        }
    }
}

pub open spec fn group_slots(g: raw::Group, langs: Seq<Seq<char>>) -> nat {
    slot_count(kept_rows(g.rows@, langs), langs)
}

/// Slots taken by the first `k` groups.
pub open spec fn slots_before(gs: Seq<raw::Group>, k: int, langs: Seq<Seq<char>>) -> nat
    decreases k,
{
    if k <= 0 {
        0
    } else {
        slots_before(gs, k - 1, langs) + group_slots(gs[k - 1], langs)
    }
}

/// `out` is group `g` converted, its settings numbered from `base`.
pub open spec fn group_ok(g: raw::Group, langs: Seq<Seq<char>>, base: nat, out: Group) -> bool {
    let kept = kept_rows(g.rows@, langs);
    &&& out.title@ == resolve_in(g.title@, langs)
    &&& out.rows@.len() == kept.len()
    &&& forall|j: int| 0 <= j < kept.len() ==> #[trigger] row_ok(
        kept[j],
        langs,
        (base + slot_count(kept.subrange(0, j), langs)) as usize,
        Some(out.rows@[j]),
    )
}

/// Positions of the groups left with at least one row: an empty group is not rendered.
pub open spec fn shown_groups(gs: Seq<raw::Group>, langs: Seq<Seq<char>>) -> Seq<int>
    decreases gs.len(),
{
    if gs.len() == 0 {
        seq![]
    } else {
        let p = shown_groups(gs.drop_last(), langs);
        if kept_rows(gs.last().rows@, langs).len() > 0 {
            p.push(gs.len() - 1)
        } else {
            p
        }
    }
}

pub open spec fn total_rows(gs: Seq<raw::Group>) -> nat
    decreases gs.len(),
{
    if gs.len() == 0 {
        0
    } else {
        total_rows(gs.drop_last()) + gs.last().rows@.len()
    }
}

/// The number of rows in all the groups, or `usize::MAX` when there are more.
pub fn total_rows_of(raw: &raw::Schema) -> (n: usize)
    ensures
        n == (if total_rows(raw.groups@) < usize::MAX {
            total_rows(raw.groups@) as usize
        } else {
            usize::MAX
        }),
{
    let mut n: usize = 0;
    let mut i: usize = 0;
    while i < raw.groups.len()
        invariant
            i <= raw.groups@.len(),
            n == (if total_rows(raw.groups@.subrange(0, i as int)) < usize::MAX {
                total_rows(raw.groups@.subrange(0, i as int)) as usize
            } else {
                usize::MAX
            }),
        decreases raw.groups@.len() - i,
    {
        proof {
            assert(raw.groups@.subrange(0, i + 1).drop_last() =~= raw.groups@.subrange(0, i as int));
        }
        let k = raw.groups[i].rows.len();
        n = if n < usize::MAX - k {
            n + k
        } else {
            usize::MAX
        };
        i += 1;
    }
    proof {
        assert(raw.groups@.subrange(0, raw.groups@.len() as int) =~= raw.groups@);
    }
    n
}

proof fn lemma_slot_count_bound(rows: Seq<Option<raw::Row>>, langs: Seq<Seq<char>>)
    ensures
        slot_count(kept_rows(rows, langs), langs) <= rows.len(),
        kept_rows(rows, langs).len() <= rows.len(),
    decreases rows.len(),
{
    if rows.len() > 0 {
        lemma_slot_count_bound(rows.drop_last(), langs);
        let p = kept_rows(rows.drop_last(), langs);
        match rows.last() {
            Some(r) => if row_kept(r, langs) {
                assert(kept_rows(rows, langs).drop_last() =~= p);
            },
            None => {},
        }
    }
}

proof fn lemma_slots_before_bound(gs: Seq<raw::Group>, k: int, langs: Seq<Seq<char>>)
    requires
        0 <= k <= gs.len(),
    ensures
        slots_before(gs, k, langs) <= total_rows(gs.subrange(0, k)),
    decreases k,
{
    if k > 0 {
        lemma_slots_before_bound(gs, k - 1, langs);
        lemma_slot_count_bound(gs[k - 1].rows@, langs);
        assert(gs.subrange(0, k).drop_last() =~= gs.subrange(0, k - 1));
    }
}

proof fn lemma_total_rows_prefix(gs: Seq<raw::Group>, k: int)
    requires
        0 <= k <= gs.len(),
    ensures
        total_rows(gs.subrange(0, k)) <= total_rows(gs),
    decreases gs.len() - k,
{
    if k < gs.len() {
        lemma_total_rows_prefix(gs, k + 1);
        assert(gs.subrange(0, k + 1).drop_last() =~= gs.subrange(0, k));
    } else {
        assert(gs.subrange(0, k) =~= gs);
    }
}

/// One group, its settings numbered on from `*slots`.
fn convert_group(g: raw::Group, languages: &Vec<String>, slots: &mut usize) -> (out: Group)
    requires
        g.wf(),
        *old(slots) + g.rows@.len() < usize::MAX,
    ensures
        group_ok(g, strings(languages@), *old(slots) as nat, out),
        *final(slots) == *old(slots) + group_slots(g, strings(languages@)),
{
    let ghost langs = strings(languages@);
    let ghost all = g.rows@;
    let ghost base = *slots as nat;
    let title = resolve(&g.title, languages);
    let n = g.rows.len();
    let mut rest = g.rows;
    let mut rows: Vec<Row> = Vec::new();
    let mut i: usize = 0;
    while rest.len() > 0
        invariant
            all.len() == n,
            i <= n,
            rest@ == all.subrange(i as int, n as int),
            forall|q: int| 0 <= q < n ==> (#[trigger] all[q] matches Some(r) ==> r.wf()),
            langs == strings(languages@),
            *slots as nat == base + slot_count(kept_rows(all.subrange(0, i as int), langs), langs),
            base + n < usize::MAX,
            rows@.len() == kept_rows(all.subrange(0, i as int), langs).len(),
            forall|j: int| 0 <= j < rows@.len() ==> #[trigger] row_ok(
                kept_rows(all.subrange(0, i as int), langs)[j],
                langs,
                (base + slot_count(kept_rows(all.subrange(0, i as int), langs).subrange(0, j), langs)) as usize,
                Some(rows@[j]),
            ),
        decreases rest@.len(),
    {
        let ghost pre = kept_rows(all.subrange(0, i as int), langs);
        proof {
            assert(rest@[0] == all[i as int]);
            assert(all.subrange(0, i + 1).drop_last() =~= all.subrange(0, i as int));
            assert(all.subrange(0, i + 1).last() == all[i as int]);
            lemma_slot_count_bound(all.subrange(0, i as int), langs);
        }
        let item = rest.remove(0);
        proof {
            assert(rest@ =~= all.subrange(i + 1, n as int));
        }
        match item {
            Some(r) => {
                let ghost r0 = r;
                let ghost before = rows@;
                match convert(r, languages, slots) {
                    Some(row) => {
                        rows.push(row);
                        proof {
                            let now = kept_rows(all.subrange(0, i + 1), langs);
                            assert(now == pre.push(r0));
                            assert(now.drop_last() =~= pre);
                            assert forall|j: int| 0 <= j < rows@.len() implies #[trigger] row_ok(
                                now[j],
                                langs,
                                (base + slot_count(now.subrange(0, j), langs)) as usize,
                                Some(rows@[j]),
                            ) by {
                                if j < pre.len() {
                                    assert(now.subrange(0, j) =~= pre.subrange(0, j));
                                    assert(rows@[j] == before[j]);
                                } else {
                                    assert(now.subrange(0, j) =~= pre);
                                }
                            }
                        }
                    },
                    None => {
                        proof {
                            assert(kept_rows(all.subrange(0, i + 1), langs) == pre);
                        }
                    },
                }
            },
            None => {},
        }
        i += 1;
    }
    proof {
        assert(all.subrange(0, n as int) =~= all);
    }
    Group { title, rows }
}

/// `out` is the page the raw schema gives in the languages `langs`.
pub open spec fn schema_ok(raw: raw::Schema, langs: Seq<Seq<char>>, out: Schema) -> bool {
    let gs = raw.groups@;
    &&& out.config == raw.config
    &&& if raw.schema > SUPPORTED {
        &&& out.too_new
        &&& out.groups@.len() == 0
        &&& out.slots == 0
    } else {
        let shown = shown_groups(gs, langs);
        &&& !out.too_new
        &&& out.slots == slots_before(gs, gs.len() as int, langs)
        &&& out.groups@.len() == shown.len()
        &&& forall|j: int| 0 <= j < shown.len() ==> #[trigger] group_ok(
            gs[shown[j]],
            langs,
            slots_before(gs, shown[j], langs),
            out.groups@[j],
        )
    }
}

/// The page a schema gives. A file from the future still gets a page: its rows are not
/// rendered, since this build cannot know what they mean, but the applet does not
/// silently look settingless.
pub fn resolve_schema(raw: raw::Schema, languages: &Vec<String>) -> (out: Schema)
    requires
        raw.wf(),
        total_rows(raw.groups@) < usize::MAX,
    ensures
        schema_ok(raw, strings(languages@), out),
{
    if raw.schema > SUPPORTED {
        return Schema { config: raw.config, groups: Vec::new(), slots: 0, too_new: true };
    }
    let ghost langs = strings(languages@);
    let ghost gs = raw.groups@;
    let n = raw.groups.len();
    let mut rest = raw.groups;
    let mut groups: Vec<Group> = Vec::new();
    let mut slots: usize = 0;
    let mut i: usize = 0;
    while rest.len() > 0
        invariant
            gs.len() == n,
            i <= n,
            rest@ == gs.subrange(i as int, n as int),
            forall|q: int| 0 <= q < n ==> #[trigger] gs[q].wf(),
            langs == strings(languages@),
            total_rows(gs) < usize::MAX,
            slots as nat == slots_before(gs, i as int, langs),
            groups@.len() == shown_groups(gs.subrange(0, i as int), langs).len(),
            forall|j: int| 0 <= j < shown_groups(gs.subrange(0, i as int), langs).len() ==> 0 <= #[trigger] shown_groups(gs.subrange(0, i as int), langs)[j] < i,
            forall|j: int| 0 <= j < groups@.len() ==> #[trigger] group_ok(
                gs[shown_groups(gs.subrange(0, i as int), langs)[j]],
                langs,
                slots_before(gs, shown_groups(gs.subrange(0, i as int), langs)[j], langs),
                groups@[j],
            ),
        decreases rest@.len(),
    {
        let ghost pre = shown_groups(gs.subrange(0, i as int), langs);
        proof {
            assert(rest@[0] == gs[i as int]);
            assert(gs[i as int].wf());
            assert(gs.subrange(0, i + 1).drop_last() =~= gs.subrange(0, i as int));
            assert(gs.subrange(0, i + 1).last() == gs[i as int]);
            lemma_slots_before_bound(gs, i + 1, langs);
            lemma_total_rows_prefix(gs, i + 1);
            assert(total_rows(gs.subrange(0, i + 1)) == total_rows(gs.subrange(0, i as int)) + gs[i as int].rows@.len());
            lemma_slots_before_bound(gs, i as int, langs);
        }
        let g = rest.remove(0);
        proof {
            assert(rest@ =~= gs.subrange(i + 1, n as int));
        }
        let ghost g0 = g;
        let ghost before = groups@;
        let out = convert_group(g, languages, &mut slots);
        if out.rows.len() > 0 {
            groups.push(out);
            proof {
                let now = shown_groups(gs.subrange(0, i + 1), langs);
                assert(now == pre.push(i as int));
                assert forall|j: int| 0 <= j < groups@.len() implies #[trigger] group_ok(
                    gs[now[j]],
                    langs,
                    slots_before(gs, now[j], langs),
                    groups@[j],
                ) by {
                    if j < pre.len() {
                        assert(groups@[j] == before[j]);
                    }
                }
            }
        } else {
            proof {
                assert(shown_groups(gs.subrange(0, i + 1), langs) == pre);
            }
        }
        i += 1;
    }
    proof {
        assert(gs.subrange(0, n as int) =~= gs);
    }
    Schema { config: raw.config, groups, slots, too_new: false }
}

// ---------------------------------------------------------------- slots

/// The slots of the settings among `rows`, in order.
pub open spec fn row_slots(rows: Seq<Row>) -> Seq<usize>
    decreases rows.len(),
{
    if rows.len() == 0 {
        seq![]
    } else {
        row_slots(rows.drop_last()) + match rows.last() {
            Row::Setting(s) => seq![s.slot],
            _ => Seq::<usize>::empty(),
        }
    }
}

/// The slots of the settings on a page, in reading order.
pub open spec fn page_slots(groups: Seq<Group>) -> Seq<usize>
    decreases groups.len(),
{
    if groups.len() == 0 {
        seq![]
    } else {
        page_slots(groups.drop_last()) + row_slots(groups.last().rows@)
    }
}

/// `from`, `from + 1`, ... `n` numbers.
pub open spec fn count_up(from: nat, n: nat) -> Seq<usize> {
    Seq::new(n, |k: int| (from + k) as usize)
}

proof fn lemma_kept_rows_kept(rows: Seq<Option<raw::Row>>, langs: Seq<Seq<char>>)
    ensures
        forall|j: int| 0 <= j < kept_rows(rows, langs).len() ==> row_kept(#[trigger] kept_rows(rows, langs)[j], langs),
    decreases rows.len(),
{
    if rows.len() > 0 {
        lemma_kept_rows_kept(rows.drop_last(), langs);
        let p = kept_rows(rows.drop_last(), langs);
        let k = kept_rows(rows, langs);
        assert forall|j: int| 0 <= j < k.len() implies row_kept(#[trigger] k[j], langs) by {
            if j < p.len() {
                assert(k[j] == p[j]);
            }
        }
    }
}

proof fn lemma_group_prefix(kept: Seq<raw::Row>, langs: Seq<Seq<char>>, base: nat, rows: Seq<Row>, k: int)
    requires
        rows.len() == kept.len(),
        forall|j: int| 0 <= j < kept.len() ==> #[trigger] row_ok(
            kept[j],
            langs,
            (base + slot_count(kept.subrange(0, j), langs)) as usize,
            Some(rows[j]),
        ),
        forall|j: int| 0 <= j < kept.len() ==> row_kept(#[trigger] kept[j], langs),
        0 <= k <= kept.len(),
    ensures
        row_slots(rows.subrange(0, k)) == count_up(base, slot_count(kept.subrange(0, k), langs)),
    decreases k,
{
    if k == 0 {
        assert(rows.subrange(0, 0) =~= Seq::<Row>::empty());
        assert(kept.subrange(0, 0) =~= Seq::<raw::Row>::empty());
        assert(count_up(base, 0) =~= Seq::<usize>::empty());
    } else {
        lemma_group_prefix(kept, langs, base, rows, k - 1);
        let r = kept[k - 1];
        let o = rows[k - 1];
        let n = slot_count(kept.subrange(0, k - 1), langs);
        assert(rows.subrange(0, k).drop_last() =~= rows.subrange(0, k - 1));
        assert(rows.subrange(0, k).last() == o);
        assert(kept.subrange(0, k).drop_last() =~= kept.subrange(0, k - 1));
        assert(kept.subrange(0, k).last() == r);
        assert(row_ok(r, langs, (base + n) as usize, Some(o)));
        assert(row_kept(r, langs));
        match r {
            raw::Row::Setting { .. } => {
                assert(takes_slot(r, langs));
                assert(count_up(base, n + 1) =~= count_up(base, n).push((base + n) as usize));
            },
            _ => {
                assert(!takes_slot(r, langs));
                assert(!(o is Setting));
                assert(row_slots(rows.subrange(0, k)) =~= row_slots(rows.subrange(0, k - 1)));
            },
        }
    }
}

proof fn lemma_group_slots(g: raw::Group, langs: Seq<Seq<char>>, base: nat, out: Group)
    requires
        group_ok(g, langs, base, out),
    ensures
        row_slots(out.rows@) == count_up(base, group_slots(g, langs)),
{
    let kept = kept_rows(g.rows@, langs);
    lemma_kept_rows_kept(g.rows@, langs);
    lemma_group_prefix(kept, langs, base, out.rows@, kept.len() as int);
    assert(out.rows@.subrange(0, kept.len() as int) =~= out.rows@);
    assert(kept.subrange(0, kept.len() as int) =~= kept);
}

proof fn lemma_shown_bounds(gs: Seq<raw::Group>, langs: Seq<Seq<char>>)
    ensures
        forall|j: int| 0 <= j < shown_groups(gs, langs).len() ==> 0 <= #[trigger] shown_groups(gs, langs)[j] < gs.len(),
    decreases gs.len(),
{
    if gs.len() > 0 {
        lemma_shown_bounds(gs.drop_last(), langs);
        let p = shown_groups(gs.drop_last(), langs);
        let k = shown_groups(gs, langs);
        assert forall|j: int| 0 <= j < k.len() implies 0 <= #[trigger] k[j] < gs.len() by {
            if j < p.len() {
                assert(k[j] == p[j]);
            }
        }
    }
}

proof fn lemma_slots_before_prefix(gs: Seq<raw::Group>, k: int, langs: Seq<Seq<char>>)
    requires
        0 <= k < gs.len(),
    ensures
        slots_before(gs.drop_last(), k, langs) == slots_before(gs, k, langs),
    decreases k,
{
    if k > 0 {
        lemma_slots_before_prefix(gs, k - 1, langs);
    }
}

proof fn lemma_page_slots(gs: Seq<raw::Group>, langs: Seq<Seq<char>>, outs: Seq<Group>)
    requires
        outs.len() == shown_groups(gs, langs).len(),
        forall|j: int| 0 <= j < outs.len() ==> #[trigger] group_ok(
            gs[shown_groups(gs, langs)[j]],
            langs,
            slots_before(gs, shown_groups(gs, langs)[j], langs),
            outs[j],
        ),
    ensures
        page_slots(outs) == count_up(0, slots_before(gs, gs.len() as int, langs)),
    decreases gs.len(),
{
    if gs.len() == 0 {
        assert(count_up(0, 0) =~= Seq::<usize>::empty());
    } else {
        let n = gs.len() - 1;
        let g0 = gs.drop_last();
        let sh = shown_groups(gs, langs);
        let sh0 = shown_groups(g0, langs);
        lemma_shown_bounds(g0, langs);
        let shown_last = kept_rows(gs.last().rows@, langs).len() > 0;
        let outs0 = if shown_last {
            outs.drop_last()
        } else {
            outs
        };
        assert forall|j: int| 0 <= j < outs0.len() implies #[trigger] group_ok(
            g0[sh0[j]],
            langs,
            slots_before(g0, sh0[j], langs),
            outs0[j],
        ) by {
            assert(sh[j] == sh0[j]);
            assert(group_ok(gs[sh[j]], langs, slots_before(gs, sh[j], langs), outs[j]));
            assert(outs0[j] == outs[j]);
            assert(g0[sh0[j]] == gs[sh0[j]]);
            lemma_slots_before_prefix(gs, sh0[j], langs);
        }
        lemma_page_slots(g0, langs, outs0);
        lemma_slots_before_prefix(gs, n, langs);
        let a = slots_before(gs, n, langs);
        if shown_last {
            assert(sh[sh.len() - 1] == n);
            assert(group_ok(gs[n], langs, a, outs[outs.len() - 1]));
            lemma_group_slots(gs[n], langs, a, outs.last());
            assert(outs.drop_last().push(outs.last()) =~= outs);
            assert(page_slots(outs) == page_slots(outs0) + row_slots(outs.last().rows@));
            assert(count_up(0, a) + count_up(a, group_slots(gs[n], langs)) =~= count_up(
                0,
                a + group_slots(gs[n], langs),
            ));
        } else {
            assert(kept_rows(gs[n].rows@, langs) =~= Seq::<raw::Row>::empty());
            assert(group_slots(gs[n], langs) == 0);
        }
    }
}

/// Only groups with a row left are shown.
proof fn lemma_shown_nonempty(gs: Seq<raw::Group>, langs: Seq<Seq<char>>)
    ensures
        forall|j: int| 0 <= j < shown_groups(gs, langs).len() ==> 0 <= #[trigger] shown_groups(gs, langs)[j] < gs.len()
            && kept_rows(gs[shown_groups(gs, langs)[j]].rows@, langs).len() > 0,
    decreases gs.len(),
{
    if gs.len() > 0 {
        lemma_shown_nonempty(gs.drop_last(), langs);
        let p = shown_groups(gs.drop_last(), langs);
        assert forall|j: int| 0 <= j < shown_groups(gs, langs).len() implies 0 <= #[trigger] shown_groups(gs, langs)[j] < gs.len()
            && kept_rows(gs[shown_groups(gs, langs)[j]].rows@, langs).len() > 0 by {
            if j < p.len() {
                assert(shown_groups(gs, langs)[j] == p[j]);
                assert(gs[p[j]] == gs.drop_last()[p[j]]);
            }
        }
    }
}

/// Every setting on a page has its own slot: read in page order, the settings are
/// numbered 0, 1, 2, ... and there are exactly as many of them as `slots` says, which is
/// what lets the page keep its values in one vector indexed by slot. A schema from the
/// future gives an empty page with no slots, and no group shown is empty.
pub proof fn lemma_slots_number_the_settings(raw: raw::Schema, langs: Seq<Seq<char>>, out: Schema)
    requires
        schema_ok(raw, langs, out),
    ensures
        page_slots(out.groups@) == count_up(0, out.slots as nat),
        out.too_new ==> out.groups@.len() == 0 && out.slots == 0,
        forall|j: int| 0 <= j < out.groups@.len() ==> (#[trigger] out.groups@[j]).rows@.len() > 0,
{
    if raw.schema > SUPPORTED {
        assert(out.groups@ =~= Seq::<Group>::empty());
        assert(count_up(0, 0) =~= Seq::<usize>::empty());
    } else {
        lemma_page_slots(raw.groups@, langs, out.groups@);
        lemma_shown_nonempty(raw.groups@, langs);
        let gs = raw.groups@;
        let shown = shown_groups(gs, langs);
        assert forall|j: int| 0 <= j < out.groups@.len() implies (#[trigger] out.groups@[j]).rows@.len() > 0 by {
            assert(group_ok(gs[shown[j]], langs, slots_before(gs, shown[j], langs), out.groups@[j]));
        }
    }
}

} // verus!
