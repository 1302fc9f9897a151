use wmde_settings::settings::applet::{
    option_value, reset_plan, setting, setting_keys, text_limit, toggle_text, write_key, PageState,
};
use wmde_settings::settings::l10n::L10n;
use wmde_settings::settings::raw;
use wmde_settings::settings::schema::{resolve_schema, ChoiceStyle, ConfigRef, Schema};

fn label(text: &str) -> L10n {
    let mut l = L10n::new();
    l.insert(String::new(), text.to_string());
    l
}

fn setting_row(key: &str, control: raw::Control, default: Option<&str>) -> Option<raw::Row> {
    Some(raw::Row::Setting {
        key: key.to_owned(),
        label: label(key),
        description: None,
        control,
        default: default.map(str::to_owned),
    })
}

/// A toggle, a note, a choice, and (in a second group) a text field.
fn page() -> Schema {
    let raw = raw::Schema {
        schema: 1,
        config: ConfigRef { id: "x".into(), version: 1 },
        groups: vec![
            raw::Group {
                title: label("A"),
                rows: vec![
                    setting_row("dnd", raw::Control::Toggle, Some("false")),
                    Some(raw::Row::Note { text: label("note") }),
                    setting_row(
                        "unit",
                        raw::Control::Choice {
                            items: vec![
                                raw::ChoiceItem { value: "Celsius".into(), label: label("C") },
                                raw::ChoiceItem { value: "Fahrenheit".into(), label: label("F") },
                            ],
                            style: ChoiceStyle::Auto,
                        },
                        None,
                    ),
                ],
            },
            raw::Group {
                title: label("B"),
                rows: vec![setting_row(
                    "city",
                    raw::Control::Text { placeholder: None, max_len: Some(4) },
                    Some("\"Kyiv\""),
                )],
            },
        ],
    };
    resolve_schema(raw, &vec!["en".to_owned()])
}

#[test]
fn settings_are_found_by_slot() {
    let schema = page();
    assert_eq!(schema.slots, 3);
    assert_eq!(setting_keys(&schema), ["dnd", "unit", "city"]);
    assert_eq!(setting(&schema, 2).map(|s| s.key.as_str()), Some("city"));
    assert!(setting(&schema, 3).is_none());
    assert_eq!(option_value(&schema, 1, 1).as_deref(), Some("Fahrenheit"));
    assert_eq!(option_value(&schema, 1, 2), None);
    assert_eq!(option_value(&schema, 0, 0), None);
    assert_eq!(text_limit(&schema, 2), Some(4));
    assert_eq!(text_limit(&schema, 0), None);
    assert_eq!(toggle_text(true), "true");
    assert_eq!(toggle_text(false), "false");
}

#[test]
fn a_reload_lines_the_reads_up_with_the_slots() {
    let schema = page();
    let mut state = PageState::new(schema.slots);
    assert_eq!(state.values, vec![None, None, None]);
    state.reload(&schema, &vec![Some("true".into()), None, Some("\"Lviv\"".into())]);
    assert_eq!(state.values, vec![Some("true".to_owned()), None, Some("\"Lviv\"".to_owned())]);
}

#[test]
fn an_edit_starts_from_the_stored_text_and_is_cut_to_the_limit() {
    let schema = page();
    let mut state = PageState::new(schema.slots);
    state.reload(&schema, &vec![None, None, Some("\"Lviv\"".into())]);
    state.start_editing(2);
    assert_eq!(state.draft(2), Some("Lviv"));
    assert_eq!(state.draft(1), None);
    state.type_text(2, "Kharkiv", text_limit(&schema, 2));
    assert_eq!(state.draft(2), Some("Khar"));
    // Committing another field leaves nothing to write, and ends the edit all the same.
    assert_eq!(state.commit(1), None);
    assert_eq!(state.draft(2), None);
    state.type_text(2, "Odesa \"centre\"", None);
    let text = state.commit(2).expect("the edited field is written");
    assert_eq!(text, "\"Odesa \\\"centre\\\"\"");
    // Until the write lands, the stored value is untouched.
    assert_eq!(state.values[2].as_deref(), Some("\"Lviv\""));
    state.wrote(2, text.clone());
    assert_eq!(state.values[2].as_deref(), Some(text.as_str()));
    state.wrote(7, "ignored".into());
    assert_eq!(state.values.len(), 3);
}

#[test]
fn reset_prefers_the_installed_value_then_the_schema_default() {
    let schema = page();
    let plan = reset_plan(&schema, &vec![None, Some("Celsius".into()), None]);
    assert_eq!(
        plan,
        vec![(0, "false".to_owned()), (1, "Celsius".to_owned()), (2, "\"Kyiv\"".to_owned())]
    );
    let plan = reset_plan(&schema, &vec![Some("true".into()), None, None]);
    // The choice has neither, so it is left alone.
    assert_eq!(plan, vec![(0, "true".to_owned()), (2, "\"Kyiv\"".to_owned())]);
}

#[test]
fn a_write_goes_to_the_key_of_its_slot() {
    let s = page();
    assert_eq!(write_key(&s, 0).as_deref(), Some("dnd"));
    assert_eq!(write_key(&s, 1).as_deref(), Some("unit"));
    assert_eq!(write_key(&s, 2).as_deref(), Some("city"));
    assert_eq!(write_key(&s, 3), None);
}

#[test]
fn only_a_write_that_landed_changes_the_shown_value() {
    let mut p = PageState::new(2);
    p.settle_write(0, "true".into(), false);
    assert_eq!(p.values, vec![None, None]);
    p.settle_write(0, "true".into(), true);
    assert_eq!(p.values, vec![Some("true".to_owned()), None]);
    p.settle_write(5, "x".into(), true);
    assert_eq!(p.values.len(), 2);
}
