use wmde_settings::settings::l10n::{resolve, resolve_opt, L10n};
use wmde_settings::settings::raw;
use wmde_settings::settings::schema::{
    resolve_schema, ChoiceStyle, ConfigRef, Control, Row, Schema, RADIO_LIMIT,
};

fn languages() -> Vec<String> {
    vec!["uk_UA".to_owned(), "uk".to_owned()]
}

fn l10n(pairs: &[(&str, &str)]) -> L10n {
    let mut t = L10n::new();
    for (k, v) in pairs {
        t.insert(k.to_string(), v.to_string());
    }
    t
}

fn config(id: &str) -> ConfigRef {
    ConfigRef { id: id.to_owned(), version: 1 }
}

fn setting(key: &str, label: L10n, control: raw::Control, default: Option<&str>) -> raw::Row {
    raw::Row::Setting {
        key: key.to_owned(),
        label,
        description: None,
        control,
        default: default.map(str::to_owned),
    }
}

fn item(value: &str, label: &str) -> raw::ChoiceItem {
    raw::ChoiceItem { value: value.to_owned(), label: l10n(&[("", label)]) }
}

fn one_group(rows: Vec<Option<raw::Row>>) -> raw::Schema {
    raw::Schema {
        schema: 1,
        config: config("x"),
        groups: vec![raw::Group { title: l10n(&[("", "G")]), rows }],
    }
}

/// The notifications schema: a toggle, a two-way choice, a row written against a newer
/// schema (which arrives unreadable), and a note.
fn notifications() -> raw::Schema {
    raw::Schema {
        schema: 1,
        config: ConfigRef { id: "fun.wmde.AppletNotifications".to_owned(), version: 1 },
        groups: vec![raw::Group {
            title: l10n(&[("", "Behaviour"), ("uk", "Поведінка")]),
            rows: vec![
                Some(raw::Row::Setting {
                    key: "do_not_disturb".to_owned(),
                    label: l10n(&[("", "Do not disturb"), ("uk", "Не турбувати")]),
                    description: Some(l10n(&[("", "Hide banners"), ("uk", "Ховати сповіщення")])),
                    control: raw::Control::Toggle,
                    default: Some("false".to_owned()),
                }),
                Some(raw::Row::Setting {
                    key: "anchor".to_owned(),
                    label: l10n(&[("", "Position"), ("uk", "Розташування")]),
                    description: None,
                    control: raw::Control::Choice {
                        items: vec![
                            raw::ChoiceItem {
                                value: "TopRight".to_owned(),
                                label: l10n(&[("", "Top right"), ("uk", "Згори праворуч")]),
                            },
                            raw::ChoiceItem {
                                value: "TopLeft".to_owned(),
                                label: l10n(&[("", "Top left"), ("uk", "Згори ліворуч")]),
                            },
                        ],
                        style: ChoiceStyle::Auto,
                    },
                    default: Some("TopRight".to_owned()),
                }),
                None,
                Some(raw::Row::Note {
                    text: l10n(&[("", "Managed by the daemon"), ("uk", "Керується службою")]),
                }),
            ],
        }],
    }
}

fn parse(raw: raw::Schema, languages: &[String]) -> Schema {
    resolve_schema(raw, &languages.to_vec())
}

#[test]
fn one_unreadable_row_does_not_cost_the_page() {
    let schema = parse(notifications(), &languages());

    assert!(!schema.too_new);
    assert_eq!(schema.config.id, "fun.wmde.AppletNotifications");
    assert_eq!(schema.config.version, 1);
    assert_eq!(schema.groups.len(), 1);
    assert_eq!(schema.groups[0].title, "Поведінка");
    assert_eq!(schema.groups[0].rows.len(), 3, "the future row is dropped alone");
    assert_eq!(schema.slots, 2, "only the two readable settings take a slot");
}

#[test]
fn labels_come_out_in_the_environment_language() {
    let schema = parse(notifications(), &languages());
    let rows = &schema.groups[0].rows;

    let Row::Setting(toggle) = &rows[0] else {
        panic!("expected a setting");
    };
    assert_eq!(toggle.label, "Не турбувати");
    assert_eq!(toggle.description.as_deref(), Some("Ховати сповіщення"));
    assert_eq!(toggle.slot, 0);
    assert!(matches!(toggle.control, Control::Toggle));

    let Row::Setting(choice) = &rows[1] else {
        panic!("expected a setting");
    };
    let Control::Choice { items, style } = &choice.control else {
        panic!("expected a choice");
    };
    assert_eq!(items[0].label, "Згори праворуч");
    assert_eq!(items[0].value, "TopRight");
    assert_eq!(*style, ChoiceStyle::Radio, "two options stay radio buttons");
    assert_eq!(choice.slot, 1);

    assert!(matches!(&rows[2], Row::Note(text) if text == "Керується службою"));
}

#[test]
fn english_answers_when_the_language_is_missing() {
    let schema = parse(notifications(), &["de".to_owned()]);
    assert_eq!(schema.groups[0].title, "Behaviour");
}

#[test]
fn a_schema_from_the_future_still_produces_a_page() {
    let raw = raw::Schema { schema: 99, config: config("x"), groups: Vec::new() };
    let schema = parse(raw, &languages());
    assert!(schema.too_new);
    assert!(schema.groups.is_empty());
}

#[test]
fn a_future_schema_keeps_none_of_its_rows() {
    let mut raw = notifications();
    raw.schema = 2;
    let schema = parse(raw, &languages());
    assert!(schema.too_new);
    assert!(schema.groups.is_empty());
    assert_eq!(schema.slots, 0);
    assert_eq!(schema.config.id, "fun.wmde.AppletNotifications");
}

#[test]
fn a_default_that_is_not_ron_is_refused() {
    let raw = one_group(vec![Some(setting(
        "k",
        l10n(&[("", "L")]),
        raw::Control::Toggle,
        Some("(unclosed"),
    ))]);
    let schema = parse(raw, &languages());
    let Row::Setting(setting) = &schema.groups[0].rows[0] else {
        panic!("expected a setting");
    };
    assert!(setting.default.is_none(), "the broken default is dropped");
}

#[test]
fn a_choice_with_no_usable_options_is_dropped() {
    let raw = one_group(vec![Some(setting(
        "k",
        l10n(&[("", "L")]),
        raw::Control::Choice { items: vec![item("(unclosed", "Broken")], style: ChoiceStyle::Auto },
        None,
    ))]);
    let schema = parse(raw, &languages());
    assert!(schema.groups.is_empty(), "an empty group is not rendered");
    assert_eq!(schema.slots, 0, "a dropped setting claims no slot");
}

fn range(min: f64, max: f64, step: f64) -> raw::Range {
    raw::Range {
        min_bits: min.to_bits(),
        max_bits: max.to_bits(),
        step_bits: step.to_bits(),
        usable: min.is_finite() && max.is_finite() && step.is_finite() && min <= max && step > 0.0,
    }
}

#[test]
fn numbers_sliders_and_text_parse() {
    let raw = one_group(vec![
        Some(setting(
            "a",
            l10n(&[("", "A")]),
            raw::Control::Number {
                range: range(500.0, 60000.0, 500.0),
                decimals: 0,
                optional: true,
                suffix: Some(l10n(&[("", "ms"), ("uk", "мс")])),
            },
            Some("Some(5000)"),
        )),
        Some(setting(
            "b",
            l10n(&[("", "B")]),
            raw::Control::Slider {
                range: range(0.0, 1.0, 0.05),
                decimals: 2,
                min_label: Some(l10n(&[("", "quiet")])),
                max_label: Some(l10n(&[("", "loud")])),
            },
            None,
        )),
        Some(setting(
            "c",
            l10n(&[("", "C")]),
            raw::Control::Text { placeholder: None, max_len: Some(64) },
            None,
        )),
    ]);
    let schema = parse(raw, &languages());
    let rows = &schema.groups[0].rows;
    assert_eq!(rows.len(), 3);
    assert_eq!(schema.slots, 3);

    let Row::Setting(number) = &rows[0] else {
        panic!("expected a setting");
    };
    let Control::Number(number_control) = &number.control else {
        panic!("expected a number");
    };
    assert!(number_control.optional);
    assert_eq!(f64::from_bits(number_control.step_bits), 500.0);
    assert_eq!(number_control.decimals, 0, "decimals default to whole numbers");
    assert_eq!(number_control.suffix.as_deref(), Some("мс"));
    assert_eq!(number.default.as_deref(), Some("Some(5000)"));

    let Row::Setting(slider) = &rows[1] else {
        panic!("expected a setting");
    };
    let Control::Slider(slider_control) = &slider.control else {
        panic!("expected a slider");
    };
    assert_eq!(slider_control.decimals, 2);
    assert_eq!(slider_control.min_label.as_deref(), Some("quiet"));

    let Row::Setting(field) = &rows[2] else {
        panic!("expected a setting");
    };
    let Control::Text(text_control) = &field.control else {
        panic!("expected a text field");
    };
    assert_eq!(text_control.max_len, Some(64));
    assert!(text_control.placeholder.is_none());
}

#[test]
fn an_unusable_range_drops_the_setting() {
    for (min, max, step, slider) in [
        (10.0, 1.0, 1.0, false),
        (0.0, 10.0, 0.0, false),
        (0.0, 10.0, -1.0, true),
    ] {
        let r = range(min, max, step);
        let control = if slider {
            raw::Control::Slider { range: r, decimals: 0, min_label: None, max_label: None }
        } else {
            raw::Control::Number { range: r, decimals: 0, optional: false, suffix: None }
        };
        let schema = parse(one_group(vec![Some(setting("k", l10n(&[("", "L")]), control, None))]), &languages());
        assert!(schema.groups.is_empty(), "{min} {max} {step} should have been dropped");
        assert_eq!(schema.slots, 0);
    }
}

#[test]
fn five_options_become_a_dropdown() {
    let items = ["1", "2", "3", "4", "5"].iter().map(|v| item(v, v)).collect();
    let raw = one_group(vec![Some(setting(
        "k",
        l10n(&[("", "L")]),
        raw::Control::Choice { items, style: ChoiceStyle::Auto },
        None,
    ))]);
    let schema = parse(raw, &languages());
    let Row::Setting(setting) = &schema.groups[0].rows[0] else {
        panic!("expected a setting");
    };
    let Control::Choice { style, .. } = &setting.control else {
        panic!("expected a choice");
    };
    assert_eq!(*style, ChoiceStyle::Dropdown);
}

#[test]
fn the_choice_style_only_switches_beyond_the_radio_limit() {
    assert_eq!(ChoiceStyle::Auto.resolve(RADIO_LIMIT), ChoiceStyle::Radio);
    assert_eq!(ChoiceStyle::Auto.resolve(RADIO_LIMIT + 1), ChoiceStyle::Dropdown);
    assert_eq!(ChoiceStyle::Radio.resolve(9), ChoiceStyle::Radio);
    assert_eq!(ChoiceStyle::Dropdown.resolve(1), ChoiceStyle::Dropdown);
    assert_eq!(ChoiceStyle::default(), ChoiceStyle::Auto);
}

#[test]
fn unusable_options_are_dropped_one_by_one() {
    let raw = one_group(vec![Some(setting(
        "k",
        l10n(&[("", "L")]),
        raw::Control::Choice {
            items: vec![item("Celsius", "C"), item("(broken", "B"), item("10", "Ten")],
            style: ChoiceStyle::Auto,
        },
        None,
    ))]);
    let schema = parse(raw, &languages());
    let Row::Setting(setting) = &schema.groups[0].rows[0] else {
        panic!("expected a setting");
    };
    let Control::Choice { items, .. } = &setting.control else {
        panic!("expected a choice");
    };
    let values: Vec<&str> = items.iter().map(|i| i.value.as_str()).collect();
    assert_eq!(values, ["Celsius", "10"]);
}

#[test]
fn links_and_launchers_are_kept_unless_the_command_is_blank() {
    let raw = one_group(vec![
        Some(raw::Row::Link { page: "panel".to_owned(), label: l10n(&[("", "Panel")]) }),
        Some(raw::Row::External { command: "  \t".to_owned(), label: l10n(&[("", "Nothing")]) }),
        Some(raw::Row::External { command: "wmde-tool --x".to_owned(), label: l10n(&[("", "Tool")]) }),
    ]);
    let schema = parse(raw, &languages());
    let rows = &schema.groups[0].rows;
    assert_eq!(rows.len(), 2);
    assert!(matches!(&rows[0], Row::Link { page, label } if page == "panel" && label == "Panel"));
    assert!(matches!(&rows[1], Row::External { command, label } if command == "wmde-tool --x" && label == "Tool"));
    assert_eq!(schema.slots, 0);
}

#[test]
fn slots_run_on_across_groups() {
    let toggle = |k: &str| Some(setting(k, l10n(&[("", k)]), raw::Control::Toggle, None));
    let raw = raw::Schema {
        schema: 1,
        config: config("x"),
        groups: vec![
            raw::Group { title: l10n(&[("", "A")]), rows: vec![toggle("a"), None, toggle("b")] },
            raw::Group { title: l10n(&[("", "Empty")]), rows: vec![None] },
            raw::Group { title: l10n(&[("", "C")]), rows: vec![toggle("c")] },
        ],
    };
    let schema = parse(raw, &languages());
    assert_eq!(schema.slots, 3);
    assert_eq!(schema.groups.len(), 2);
    let Row::Setting(c) = &schema.groups[1].rows[0] else {
        panic!("expected a setting");
    };
    assert_eq!(c.slot, 2);
}

#[test]
fn a_label_answers_to_the_base_language() {
    let label = l10n(&[("", "Position"), ("uk", "Розташування"), ("de_AT", "Lage")]);
    assert_eq!(resolve(&label, &vec!["uk_UA.UTF-8".to_owned()]), "Розташування");
    assert_eq!(resolve(&label, &vec!["de_AT".to_owned(), "uk".to_owned()]), "Lage");
    assert_eq!(resolve(&label, &vec!["de".to_owned()]), "Position");
    assert_eq!(resolve(&label, &Vec::new()), "Position");
    assert_eq!(resolve(&l10n(&[("fr", "x")]), &vec!["de".to_owned()]), "");
}

#[test]
fn an_optional_label_that_resolves_to_nothing_is_absent() {
    let langs = vec!["uk".to_owned()];
    assert_eq!(resolve_opt(None, &langs), None);
    assert_eq!(resolve_opt(Some(&l10n(&[("fr", "x")])), &langs), None);
    assert_eq!(resolve_opt(Some(&l10n(&[("uk", "так")])), &langs).as_deref(), Some("так"));
}
