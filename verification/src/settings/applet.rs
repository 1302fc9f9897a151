//! The state of one applet's settings page: the raw RON text of every setting, indexed
//! by slot, and the text field being edited.
//!
//! Reading and writing the applet's config is the caller's; what comes back from a read,
//! and whether a write landed, is handed in here.
use vstd::prelude::*;
use super::raw;
use super::schema::{
    count_up, lemma_slots_number_the_settings, page_slots, row_slots, schema_ok, Control, Group, Row,
    Schema, Setting,
};
use super::store::{as_text, format_text, ron_quoted, ron_string, opt_text};
use crate::text::{chars_of, string_of, trim_ws};

verus! {

/// The settings of a page, in reading order.
pub open spec fn page_settings(groups: Seq<Group>) -> Seq<Setting>
    decreases groups.len(),
{
    if groups.len() == 0 {
        seq![]
    } else {
        page_settings(groups.drop_last()) + row_settings(groups.last().rows@)
    }
}

pub open spec fn row_settings(rows: Seq<Row>) -> Seq<Setting>
    decreases rows.len(),
{
    if rows.len() == 0 {
        seq![]
    } else {
        row_settings(rows.drop_last()) + match rows.last() {
            Row::Setting(s) => seq![s],
            _ => Seq::<Setting>::empty(),
        }
    }
}

/// Position of the first setting with slot `slot`.
pub open spec fn first_with_slot(ss: Seq<Setting>, slot: usize) -> Option<int>
    decreases ss.len(),
{
    if ss.len() == 0 {
        None
    } else {
        match first_with_slot(ss.drop_last(), slot) {
            Some(i) => Some(i),
            None => if ss.last().slot == slot {
                Some(ss.len() - 1)
            } else {
                None
            },
        }
    }
}

/// Position of the last setting with slot `slot`.
pub open spec fn last_with_slot(ss: Seq<Setting>, slot: usize) -> Option<int>
    decreases ss.len(),
{
    if ss.len() == 0 {
        None
    } else if ss.last().slot == slot {
        Some(ss.len() - 1)
    } else {
        last_with_slot(ss.drop_last(), slot)
    }
}

proof fn lemma_first_with_slot(ss: Seq<Setting>, slot: usize)
    ensures
        first_with_slot(ss, slot) matches Some(i) ==> 0 <= i < ss.len() && ss[i].slot == slot && forall|
            j: int,
        | 0 <= j < i ==> (#[trigger] ss[j]).slot != slot,
        first_with_slot(ss, slot) is None ==> forall|j: int| 0 <= j < ss.len() ==> (#[trigger] ss[j]).slot != slot,
    decreases ss.len(),
{
    if ss.len() > 0 {
        lemma_first_with_slot(ss.drop_last(), slot);
        let p = ss.drop_last();
        assert forall|j: int| 0 <= j < p.len() implies p[j] == ss[j] by {}
    }
}

proof fn lemma_last_with_slot(ss: Seq<Setting>, slot: usize)
    ensures
        last_with_slot(ss, slot) matches Some(i) ==> 0 <= i < ss.len() && ss[i].slot == slot && forall|
            j: int,
        | i < j < ss.len() ==> (#[trigger] ss[j]).slot != slot,
        last_with_slot(ss, slot) is None ==> forall|j: int| 0 <= j < ss.len() ==> (#[trigger] ss[j]).slot != slot,
    decreases ss.len(),
{
    if ss.len() > 0 {
        lemma_last_with_slot(ss.drop_last(), slot);
        let p = ss.drop_last();
        assert forall|j: int| 0 <= j < p.len() implies p[j] == ss[j] by {}
    }
}

/// The settings of a page in reading order, as references.
fn settings_of(schema: &Schema) -> (v: Vec<&Setting>)
    ensures
        v@.map_values(|s: &Setting| *s) == page_settings(schema.groups@),
{
    let mut v: Vec<&Setting> = Vec::new();
    let mut i: usize = 0;
    while i < schema.groups.len()
        invariant
            i <= schema.groups@.len(),
            v@.map_values(|s: &Setting| *s) == page_settings(schema.groups@.subrange(0, i as int)),
        decreases schema.groups@.len() - i,
    {
        let g = &schema.groups[i];
        let ghost start = v@.map_values(|s: &Setting| *s);
        let mut j: usize = 0;
        while j < g.rows.len()
            invariant
                j <= g.rows@.len(),
                v@.map_values(|s: &Setting| *s) == start + row_settings(g.rows@.subrange(0, j as int)),
            decreases g.rows@.len() - j,
        {
            let ghost before = v@;
            proof {
                assert(g.rows@.subrange(0, j + 1).drop_last() =~= g.rows@.subrange(0, j as int));
                assert(g.rows@.subrange(0, j + 1).last() == g.rows@[j as int]);
            }
            match &g.rows[j] {
                Row::Setting(s) => {
                    v.push(s);
                    proof {
                        assert(v@.map_values(|s: &Setting| *s) =~= before.map_values(|s: &Setting| *s).push(
                            *s,
                        ));
                    }
                },
                _ => {
                    proof {
                        assert(row_settings(g.rows@.subrange(0, j + 1)) =~= row_settings(
                            g.rows@.subrange(0, j as int),
                        ));
                    }
                },
            }
            j += 1;
        }
        proof {
            assert(g.rows@.subrange(0, g.rows@.len() as int) =~= g.rows@);
            assert(schema.groups@.subrange(0, i + 1).drop_last() =~= schema.groups@.subrange(0, i as int));
        }
        i += 1;
    }
    proof {
        assert(schema.groups@.subrange(0, schema.groups@.len() as int) =~= schema.groups@);
    }
    v
}

/// The keys of the settings on a page, in reading order: what the caller reads or
/// resets, one per setting.
pub fn setting_keys(schema: &Schema) -> (keys: Vec<String>)
    ensures
        keys@.len() == page_settings(schema.groups@).len(),
        forall|k: int| 0 <= k < keys@.len() ==> (#[trigger] keys@[k])@ == page_settings(schema.groups@)[k].key@,
{
    let ss = settings_of(schema);
    let ghost sv = ss@.map_values(|s: &Setting| *s);
    let mut keys: Vec<String> = Vec::new();
    let mut i: usize = 0;
    while i < ss.len()
        invariant
            i <= ss@.len(),
            sv == ss@.map_values(|s: &Setting| *s),
            keys@.len() == i,
            forall|k: int| 0 <= k < i ==> (#[trigger] keys@[k])@ == sv[k].key@,
        decreases ss@.len() - i,
    {
        keys.push(ss[i].key.clone());
        i += 1;
    }
    keys
}

/// The setting that owns slot `slot`: the first one with it, in reading order.
pub fn setting(schema: &Schema, slot: usize) -> (r: Option<&Setting>)
    ensures
        match first_with_slot(page_settings(schema.groups@), slot) {
            Some(i) => r matches Some(s) && *s == page_settings(schema.groups@)[i],
            None => r is None,
        },
{
    let ss = settings_of(schema);
    let ghost sv = ss@.map_values(|s: &Setting| *s);
    proof {
        lemma_first_with_slot(sv, slot);
    }
    let mut i: usize = 0;
    while i < ss.len()
        invariant
            i <= ss@.len(),
            sv == ss@.map_values(|s: &Setting| *s),
            sv == page_settings(schema.groups@),
            forall|j: int| 0 <= j < i ==> (#[trigger] sv[j]).slot != slot,
        decreases ss@.len() - i,
    {
        if ss[i].slot == slot {
            proof {
                lemma_first_with_slot(sv, slot);
                assert(sv[i as int].slot == slot);
                match first_with_slot(sv, slot) {
                    Some(f) => {
                        if f < i {
                            assert(sv[f].slot != slot);
                        }
                        if f > i {
                            assert(sv[i as int].slot != slot);
                        }
                    },
                    None => {
                        assert(sv[i as int].slot != slot);
                    },
                }
            }
            return Some(ss[i]);
        }
        i += 1;
    }
    proof {
        lemma_first_with_slot(sv, slot);
        if first_with_slot(sv, slot) is Some {
            let f = first_with_slot(sv, slot)->0;
            assert(sv[f].slot != slot);
        }
    }
    None
}

/// The one key a write to slot `slot` goes to: the key of the setting that owns the
/// slot. Settings writes one key at a time and never the whole config, whose other
/// fields the schema does not describe.
pub fn write_key(schema: &Schema, slot: usize) -> (r: Option<String>)
    ensures
        opt_text(r) == (match first_with_slot(page_settings(schema.groups@), slot) {
            Some(i) => Some(page_settings(schema.groups@)[i].key@),
            None => None,
        }),
{
    match setting(schema, slot) {
        Some(s) => Some(s.key.clone()),
        None => None,
    }
}

/// The value of option `item` of the choice in slot `slot`.
pub fn option_value(schema: &Schema, slot: usize, item: usize) -> (r: Option<String>)
    ensures
        opt_text(r) == (match first_with_slot(page_settings(schema.groups@), slot) {
            Some(i) => match page_settings(schema.groups@)[i].control {
                Control::Choice { items, .. } => if item < items@.len() {
                    Some(items@[item as int].value@)
                } else {
                    None
                },
                _ => None,
            },
            None => None,
        }),
{
    match setting(schema, slot) {
        Some(s) => match &s.control {
            Control::Choice { items, .. } => if item < items.len() {
                Some(items[item].value.clone())
            } else {
                None
            },
            _ => None,
        },
        None => None,
    }
}

/// The longest text the field in slot `slot` takes.
pub fn text_limit(schema: &Schema, slot: usize) -> (r: Option<u32>)
    ensures
        r == (match first_with_slot(page_settings(schema.groups@), slot) {
            Some(i) => match page_settings(schema.groups@)[i].control {
                Control::Text(t) => t.max_len,
                _ => None,
            },
            None => None,
        }),
{
    match setting(schema, slot) {
        Some(s) => match &s.control {
            Control::Text(t) => t.max_len,
            _ => None,
        },
        None => None,
    }
}

/// What a toggle writes.
pub fn toggle_text(value: bool) -> (s: &'static str)
    ensures
        s@ == (if value {
            "true"@
        } else {
            "false"@
        }),
{
    if value {
        "true"
    } else {
        "false"
    }
}

/// `text` cut to its first `limit` characters, when there is a limit.
pub open spec fn limited(text: Seq<char>, limit: Option<u32>) -> Seq<char> {
    match limit {
        Some(n) => if n < text.len() {
            text.subrange(0, n as int)
        } else {
            text
        },
        None => text,
    }
}

/// What "reset" writes: for every setting, in reading order, the value the applet's
/// package installed (`installed[k]` for the `k`-th setting), else the schema's own
/// default; a setting with neither is left alone, there being no way to unset a key.
pub open spec fn reset_spec(ss: Seq<Setting>, installed: Seq<Option<String>>) -> Seq<(usize, Seq<char>)>
    decreases ss.len(),
{
    if ss.len() == 0 {
        seq![]
    } else {
        let p = reset_spec(ss.drop_last(), installed);
        let k = ss.len() - 1;
        match installed[k] {
            Some(v) => p.push((ss[k].slot, v@)),
            None => match ss[k].default {
                Some(d) => p.push((ss[k].slot, d@)),
                None => p,
            },
        }
    }
}

pub open spec fn pairs_view(v: Seq<(usize, String)>) -> Seq<(usize, Seq<char>)> {
    v.map_values(|p: (usize, String)| (p.0, p.1@))
}

pub fn reset_plan(schema: &Schema, installed: &Vec<Option<String>>) -> (plan: Vec<(usize, String)>)
    requires
        installed@.len() == page_settings(schema.groups@).len(),
    ensures
        pairs_view(plan@) == reset_spec(page_settings(schema.groups@), installed@),
{
    let ss = settings_of(schema);
    let ghost sv = ss@.map_values(|s: &Setting| *s);
    let mut plan: Vec<(usize, String)> = Vec::new();
    let mut i: usize = 0;
    while i < ss.len()
        invariant
            i <= ss@.len(),
            sv == ss@.map_values(|s: &Setting| *s),
            installed@.len() == sv.len(),
            pairs_view(plan@) == reset_spec(sv.subrange(0, i as int), installed@),
        decreases ss@.len() - i,
    {
        let s = ss[i];
        let ghost before = plan@;
        proof {
            assert(sv.subrange(0, i + 1).drop_last() =~= sv.subrange(0, i as int));
            assert(sv.subrange(0, i + 1)[i as int] == *s);
        }
        match &installed[i] {
            Some(v) => {
                plan.push((s.slot, v.clone()));
                proof {
                    assert(pairs_view(plan@) =~= pairs_view(before).push((s.slot, v@)));
                }
            },
            None => match &s.default {
                Some(d) => {
                    plan.push((s.slot, d.clone()));
                    proof {
                        assert(pairs_view(plan@) =~= pairs_view(before).push((s.slot, d@)));
                    }
                },
                None => {},
            },
        }
        i += 1;
    }
    proof {
        assert(sv.subrange(0, sv.len() as int) =~= sv);
    }
    plan
}

pub open spec fn values_view(v: Seq<Option<String>>) -> Seq<Option<Seq<char>>> {
    v.map_values(|o: Option<String>| opt_text(o))
}

/// The values a reload gives: for every slot, what was read for the last setting with
/// that slot (`reads[k]` for the `k`-th setting), or nothing.
pub open spec fn reload_spec(n: nat, ss: Seq<Setting>, reads: Seq<Option<String>>) -> Seq<Option<Seq<char>>> {
    Seq::new(
        n,
        |s: int|
            match last_with_slot(ss, s as usize) {
                Some(k) => opt_text(reads[k]),
                None => None,
            },
    )
}

proof fn lemma_row_slots(rows: Seq<Row>)
    ensures
        row_slots(rows) == row_settings(rows).map_values(|s: Setting| s.slot),
    decreases rows.len(),
{
    if rows.len() > 0 {
        lemma_row_slots(rows.drop_last());
        let p = row_settings(rows.drop_last());
        match rows.last() {
            Row::Setting(x) => {
                assert(row_settings(rows).map_values(|s: Setting| s.slot) =~= p.map_values(|s: Setting| s.slot).push(
                    x.slot,
                ));
                assert(row_slots(rows) =~= row_slots(rows.drop_last()).push(x.slot));
            },
            _ => {
                assert(row_settings(rows) =~= p);
                assert(row_slots(rows) =~= row_slots(rows.drop_last()));
            },
        }
    }
}

proof fn lemma_page_slots(groups: Seq<Group>)
    ensures
        page_slots(groups) == page_settings(groups).map_values(|s: Setting| s.slot),
    decreases groups.len(),
{
    if groups.len() > 0 {
        lemma_page_slots(groups.drop_last());
        lemma_row_slots(groups.last().rows@);
        let a = page_settings(groups.drop_last());
        let b = row_settings(groups.last().rows@);
        assert((a + b).map_values(|s: Setting| s.slot) =~= a.map_values(|s: Setting| s.slot) + b.map_values(
            |s: Setting| s.slot,
        ));
    }
}

/// On a page built from a schema, a reload puts what was read for the `k`-th setting
/// into slot `k`: the settings are numbered in reading order, one slot each, so the
/// values line up with the reads exactly.
pub proof fn lemma_reload_lines_up(raw: raw::Schema, langs: Seq<Seq<char>>, out: Schema, reads: Seq<Option<String>>)
    requires
        schema_ok(raw, langs, out),
        reads.len() == page_settings(out.groups@).len(),
    ensures
        page_settings(out.groups@).len() == out.slots,
        reload_spec(out.slots as nat, page_settings(out.groups@), reads) == values_view(reads),
{
    lemma_slots_number_the_settings(raw, langs, out);
    lemma_page_slots(out.groups@);
    let ss = page_settings(out.groups@);
    let n = out.slots as nat;
    assert(ss.len() == n) by {
        assert(ss.map_values(|s: Setting| s.slot).len() == ss.len());
    }
    assert forall|k: int| 0 <= k < n implies (#[trigger] ss[k]).slot == k by {
        assert(ss.map_values(|s: Setting| s.slot)[k] == ss[k].slot);
        assert(count_up(0, n)[k] == k as usize);
    }
    assert forall|x: int| 0 <= x < n implies #[trigger] reload_spec(n, ss, reads)[x] == values_view(reads)[x] by {
        lemma_last_with_slot(ss, x as usize);
        assert(ss[x].slot == x);
        match last_with_slot(ss, x as usize) {
            Some(i) => {
                assert(ss[i].slot == i);
                if i < x {
                    assert(ss[x].slot != x as usize);
                }
            },
            None => {
                assert(ss[x].slot != x as usize);
            },
        }
    }
    assert(reload_spec(n, ss, reads) =~= values_view(reads));
}

/// The values shown and the text field being edited.
pub struct PageState {
    /// Raw RON text per setting slot; `None` where nothing has been read.
    pub values: Vec<Option<String>>,
    /// The text field being edited and what has been typed into it, kept apart from
    /// `values` so that an abandoned edit leaves the stored value alone.
    pub editing: Option<(usize, String)>,
}

impl PageState {
    /// A page with `slots` settings, none of them read yet.
    pub fn new(slots: usize) -> (p: Self)
        ensures
            values_view(p.values@) == Seq::new(slots as nat, |i: int| None::<Seq<char>>),
            p.editing is None,
    {
        let mut values: Vec<Option<String>> = Vec::new();
        let mut i: usize = 0;
        while i < slots
            invariant
                i <= slots,
                values@.len() == i,
                values_view(values@) == Seq::new(i as nat, |k: int| None::<Seq<char>>),
            decreases slots - i,
        {
            let ghost before = values@;
            values.push(None);
            proof {
                assert forall|k: int| 0 <= k < i + 1 implies #[trigger] values_view(values@)[k] == None::<Seq<char>> by {
                    if k < i {
                        assert(values@[k] == before[k]);
                        assert(values_view(before)[k] == None::<Seq<char>>);
                    }
                }
                assert(values_view(values@) =~= Seq::new((i + 1) as nat, |k: int| None::<Seq<char>>));
            }
            i += 1;
        }
        PageState { values, editing: None }
    }

    /// The text being typed into the field in slot `slot`, if that is the one edited.
    pub fn draft(&self, slot: usize) -> (r: Option<&str>)
        ensures
            match self.editing {
                Some((e, t)) => if e == slot {
                    r matches Some(d) && d@ == t@
                } else {
                    r is None
                },
                None => r is None,
            },
    {
        match &self.editing {
            Some((e, t)) => if *e == slot {
                Some(t.as_str())
            } else {
                None
            },
            None => None,
        }
    }

    /// Editing starts from the stored text, unquoted (empty when there is none).
    pub fn start_editing(&mut self, slot: usize)
        ensures
            final(self).values == old(self).values,
            final(self).editing matches Some((e, t)) && e == slot && t@ == (if slot < old(self).values@.len() {
                match old(self).values@[slot as int] {
                    Some(v) => match ron_string(trim_ws(v@)) {
                        Some(s) => s,
                        None => seq![],
                    },
                    None => seq![],
                }
            } else {
                seq![]
            }),
    {
        let current = if slot < self.values.len() {
            match &self.values[slot] {
                Some(v) => match as_text(v.as_str()) {
                    Some(s) => s,
                    None => String::new(),
                },
                None => String::new(),
            }
        } else {
            String::new()
        };
        self.editing = Some((slot, current));
    }

    /// Typing into the field in slot `slot`, the text cut to the field's limit.
    pub fn type_text(&mut self, slot: usize, text: &str, limit: Option<u32>)
        ensures
            final(self).values == old(self).values,
            final(self).editing matches Some((e, t)) && e == slot && t@ == limited(text@, limit),
    {
        let c = chars_of(text);
        let t = match limit {
            Some(n) => if (n as usize) < c.len() {
                string_of(crate::text::slice_to_vec(c.as_slice(), 0, n as usize).as_slice())
            } else {
                text.to_owned()
            },
            None => text.to_owned(),
        };
        self.editing = Some((slot, t));
    }

    /// Ends the edit. When it was the field in slot `slot`, the text to write, as RON.
    pub fn commit(&mut self, slot: usize) -> (r: Option<String>)
        ensures
            final(self).values == old(self).values,
            final(self).editing is None,
            match old(self).editing {
                Some((e, t)) => if e == slot {
                    r matches Some(v) && ron_quoted(t@) == Some(v@)
                } else {
                    r is None
                },
                None => r is None,
            },
    {
        match self.editing.take() {
            Some((e, t)) => if e == slot {
                Some(format_text(t.as_str()))
            } else {
                None
            },
            None => None,
        }
    }

    /// The outcome of writing `value` to slot `slot`: only a write that landed changes
    /// the value shown.
    pub fn settle_write(&mut self, slot: usize, value: String, landed: bool)
        ensures
            final(self).editing == old(self).editing,
            final(self).values@.len() == old(self).values@.len(),
            values_view(final(self).values@) == (if landed && slot < old(self).values@.len() {
                values_view(old(self).values@).update(slot as int, Some(value@))
            } else {
                values_view(old(self).values@)
            }),
    {
        if landed {
            self.wrote(slot, value);
        }
    }

    /// A write landed: slot `slot` now holds `value`.
    pub fn wrote(&mut self, slot: usize, value: String)
        ensures
            final(self).editing == old(self).editing,
            final(self).values@.len() == old(self).values@.len(),
            values_view(final(self).values@) == (if slot < old(self).values@.len() {
                values_view(old(self).values@).update(slot as int, Some(value@))
            } else {
                values_view(old(self).values@)
            }),
    {
        if slot < self.values.len() {
            let ghost before = self.values@;
            self.values.set(slot, Some(value));
            proof {
                assert(values_view(self.values@) =~= values_view(before).update(slot as int, Some(value@)));
            }
        }
    }

    /// Re-reads every setting: `reads[k]` is what the `k`-th setting's key held.
    pub fn reload(&mut self, schema: &Schema, reads: &Vec<Option<String>>)
        requires
            reads@.len() == page_settings(schema.groups@).len(),
        ensures
            final(self).editing == old(self).editing,
            values_view(final(self).values@) == reload_spec(
                schema.slots as nat,
                page_settings(schema.groups@),
                reads@,
            ),
    {
        let ss = settings_of(schema);
        let ghost sv = ss@.map_values(|s: &Setting| *s);
        let n = schema.slots;
        let mut values: Vec<Option<String>> = Vec::new();
        let mut i: usize = 0;
        while i < n
            invariant
                i <= n,
                values@.len() == i,
                values_view(values@) == Seq::new(i as nat, |k: int| None::<Seq<char>>),
            decreases n - i,
        {
            let ghost before = values@;
            values.push(None);
            proof {
                assert forall|k: int| 0 <= k < i + 1 implies #[trigger] values_view(values@)[k] == None::<Seq<char>> by {
                    if k < i {
                        assert(values@[k] == before[k]);
                        assert(values_view(before)[k] == None::<Seq<char>>);
                    }
                }
                assert(values_view(values@) =~= Seq::new((i + 1) as nat, |k: int| None::<Seq<char>>));
            }
            i += 1;
        }
        let mut j: usize = 0;
        while j < ss.len()
            invariant
                j <= ss@.len(),
                sv == ss@.map_values(|s: &Setting| *s),
                reads@.len() == sv.len(),
                values@.len() == n,
                values_view(values@) == reload_spec(n as nat, sv.subrange(0, j as int), reads@),
            decreases ss@.len() - j,
        {
            let s = ss[j];
            let ghost before = values@;
            proof {
                assert(sv.subrange(0, j + 1).drop_last() =~= sv.subrange(0, j as int));
                assert(sv.subrange(0, j + 1).last() == *s);
            }
            if s.slot < values.len() {
                let r = match &reads[j] {
                    Some(t) => Some(t.clone()),
                    None => None,
                };
                assert(opt_text(r) == opt_text(reads@[j as int]));
                values.set(s.slot, r);
                proof {
                    let now = reload_spec(n as nat, sv.subrange(0, j + 1), reads@);
                    let pre = reload_spec(n as nat, sv.subrange(0, j as int), reads@);
                    assert forall|x: int| 0 <= x < n implies #[trigger] values_view(values@)[x] == now[x] by {
                        if x != s.slot {
                            assert(values@[x] == before[x]);
                            assert(values_view(before)[x] == pre[x]);
                        }
                    }
                    assert(values_view(values@) =~= now);
                }
            } else {
                proof {
                    assert(values_view(values@) =~= reload_spec(n as nat, sv.subrange(0, j + 1), reads@));
                }
            }
            j += 1;
        }
        proof {
            assert(sv.subrange(0, sv.len() as int) =~= sv);
        }
        self.values = values;
    }
}

} // verus!
