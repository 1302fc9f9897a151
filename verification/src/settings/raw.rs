//! An applet settings schema as the file spells it, before any label is resolved.
//!
//! A group's rows are read one at a time, so a row written against a newer schema, or
//! with a typo, arrives here as `None` and is dropped alone instead of taking the file
//! with it.
use vstd::prelude::*;
use super::l10n::L10n;
use super::schema::{ChoiceStyle, ConfigRef};

verus! {

pub struct Schema {
    pub schema: u32,
    pub config: ConfigRef,
    pub groups: Vec<Group>,
}

pub struct Group {
    pub title: L10n,
    /// Each row as read; `None` for one that could not be read.
    pub rows: Vec<Option<Row>>,
}

pub enum Row {
    Setting {
        key: String,
        label: L10n,
        description: Option<L10n>,
        control: Control,
        /// Raw RON text.
        default: Option<String>,
    },
    Note { text: L10n },
    /// A button to another page of Settings.
    Link { page: String, label: L10n },
    /// A button that launches a program.
    External { command: String, label: L10n },
}

/// The numeric range of a number field or a slider. The bounds and the step are `f64`
/// in the file; they are carried here as their bit patterns, and the one decision that
/// needs their values - whether the range can be driven at all (all three finite,
/// `min <= max`, a positive step) - is made where the floats are, and handed in as
/// `usable`.
pub struct Range {
    pub min_bits: u64,
    pub max_bits: u64,
    pub step_bits: u64,
    pub usable: bool,
}

pub enum Control {
    Toggle,
    Choice { items: Vec<ChoiceItem>, style: ChoiceStyle },
    Number { range: Range, decimals: u8, optional: bool, suffix: Option<L10n> },
    Slider { range: Range, decimals: u8, min_label: Option<L10n>, max_label: Option<L10n> },
    Text { placeholder: Option<L10n>, max_len: Option<u32> },
}

pub struct ChoiceItem {
    /// Raw RON text, written to the config verbatim.
    pub value: String,
    pub label: L10n,
}

impl ChoiceItem {
    pub open spec fn wf(&self) -> bool {
        self.label.wf()
    }
}

/// An optional label is absent or well formed.
pub open spec fn opt_wf(l: Option<L10n>) -> bool {
    l matches Some(t) ==> t.wf()
}

impl Control {
    pub open spec fn wf(&self) -> bool {
        match self {
            Control::Toggle => true,
            Control::Choice { items, .. } => forall|i: int| 0 <= i < items@.len() ==> #[trigger] items@[i].wf(),
            Control::Number { suffix, .. } => opt_wf(*suffix),
            Control::Slider { min_label, max_label, .. } => opt_wf(*min_label) && opt_wf(*max_label),
            Control::Text { placeholder, .. } => opt_wf(*placeholder),
        }
    }
}

impl Row {
    /// Every label table is well formed.
    pub open spec fn wf(&self) -> bool {
        match self {
            Row::Setting { label, description, control, .. } => {
                &&& label.wf()
                &&& (description matches Some(d) ==> d.wf())
                &&& control.wf()
            },
            Row::Note { text } => text.wf(),
            Row::Link { label, .. } => label.wf(),
            Row::External { label, .. } => label.wf(),
        }
    }
}

impl Group {
    pub open spec fn wf(&self) -> bool {
        &&& self.title.wf()
        &&& forall|i: int| 0 <= i < self.rows@.len() ==> (#[trigger] self.rows@[i] matches Some(r) ==> r.wf())
    }
}

impl Schema {
    pub open spec fn wf(&self) -> bool {
        forall|i: int| 0 <= i < self.groups@.len() ==> #[trigger] self.groups@[i].wf()
    }
}

} // verus!
