use wmde_settings::settings::l10n::L10n;
use wmde_settings::settings::shortcuts::{
    accept, is_field_code, launch_command, sort_entries, strip_field_codes, Action, ActionName,
    ConfigTarget, Declaration, Entry, Group, Names, SUPPORTED,
};

#[test]
fn disable_is_recognised() {
    assert!(ActionName::disable().is_disable());
    assert!(!ActionName::new("TabNew".to_owned()).is_disable());
    assert_eq!(ActionName::disable().as_str(), "Disable");
}

#[test]
fn interning_hands_back_the_same_string() {
    let mut names = Names::new();
    let first = names.intern("TabNew");
    let other = names.intern("Disable");
    assert_eq!(first, names.intern("TabNew"));
    assert_ne!(first, other);
}

#[test]
fn field_codes_are_dropped_and_the_rest_survives() {
    assert_eq!(strip_field_codes("wmde-files %U"), "wmde-files");
    assert_eq!(strip_field_codes("wmde-files --trash"), "wmde-files --trash");
    assert_eq!(
        strip_field_codes("firefox --private-window %u"),
        "firefox --private-window"
    );
    // Only a whole token is a field code.
    assert_eq!(strip_field_codes("run %d100"), "run %d100");
    assert_eq!(strip_field_codes("run 100%"), "run 100%");
}

#[test]
fn field_codes_are_exactly_percent_and_one_letter() {
    let chars = |s: &str| s.chars().collect::<Vec<char>>();
    assert!(is_field_code(&chars("%f")));
    assert!(is_field_code(&chars("%m")));
    assert!(!is_field_code(&chars("%x")));
    assert!(!is_field_code(&chars("%")));
    assert!(!is_field_code(&chars("%fU")));
    // Runs of whitespace collapse to one space, and codes anywhere go.
    assert_eq!(strip_field_codes("  app   %F  --flag\t%k "), "app --flag");
    assert_eq!(strip_field_codes("%U"), "");
}

#[test]
fn a_search_matches_on_both_the_action_and_its_application() {
    let entry = Entry::new(
        "Нове вікно".to_string(),
        Some("WMDE Files".to_string()),
        "wmde-files".to_string(),
    );

    assert!(entry.matches("вікно"));
    assert!(entry.matches("files"));
    assert!(entry.matches("files вікно"));
    assert!(!entry.matches("термінал"));
    // No words at all is no constraint.
    assert!(entry.matches("  "));
}

#[test]
fn a_terminal_application_is_wrapped_and_an_empty_one_dropped() {
    assert_eq!(launch_command(Some("htop %U"), true, "wmde-term").as_deref(), Some("wmde-term -e htop"));
    assert_eq!(launch_command(Some("gimp %F"), false, "wmde-term").as_deref(), Some("gimp"));
    assert_eq!(launch_command(Some("%u"), false, "wmde-term"), None);
    assert_eq!(launch_command(None, false, "wmde-term"), None);
}

#[test]
fn the_picker_lists_each_application_before_its_actions() {
    let entries = vec![
        Entry::new("New Window".into(), Some("Files".into()), "files --new".into()),
        Entry::new("Files".into(), None, "files".into()),
        Entry::new("Abc".into(), None, "abc".into()),
        Entry::new("Close".into(), Some("Files".into()), "files --close".into()),
        Entry::new("Filesystem".into(), None, "fs".into()),
    ];
    let sorted = sort_entries(&entries);
    let names: Vec<&str> = sorted.iter().map(|e| e.name.as_str()).collect();
    assert_eq!(names, ["Abc", "Files", "Close", "New Window", "Filesystem"]);
    assert_eq!(sorted[2].command, "files --close");
    assert!(sorted[2].matches("files close"));
}

fn label(text: &str) -> L10n {
    let mut l = L10n::new();
    l.insert(String::new(), text.to_string());
    l
}

fn sample(schema: u16) -> Declaration<(u8, &'static str)> {
    Declaration {
        schema,
        config: ConfigTarget {
            id: "fun.wmde.term".into(),
            version: 1,
            key: "shortcuts_custom".into(),
        },
        groups: vec![Group {
            title: label("Tabs"),
            actions: vec![
                Action { action: "TabNew".into(), label: label("New tab"), defaults: vec![(3, "T")] },
                Action { action: "TabClose".into(), label: label("Close tab"), defaults: vec![(3, "W")] },
            ],
        }],
    }
}

#[test]
fn a_declaration_parses_into_actions_and_defaults() {
    let declaration = accept(sample(SUPPORTED)).ok().expect("the sample is current");
    assert_eq!(declaration.config.id, "fun.wmde.term");
    assert_eq!(declaration.config.key, "shortcuts_custom");
    assert_eq!(declaration.actions().len(), 2);

    let defaults = declaration.defaults();
    let found = defaults.iter().find(|(b, _)| **b == (3, "T")).map(|(_, a)| a.as_str());
    assert_eq!(found, Some("TabNew"));
}

#[test]
fn a_newer_format_is_refused_rather_than_half_read() {
    match accept(sample(2)) {
        Err(e) => assert_eq!(e.version, 2),
        Ok(_) => panic!("a newer declaration is refused"),
    }
}

#[test]
fn an_action_without_a_default_is_allowed() {
    let mut without = sample(1);
    without.groups[0].actions[0].defaults.clear();
    let declaration = accept(without).ok().expect("has to parse");
    assert_eq!(declaration.actions().len(), 2);
    assert_eq!(declaration.defaults().len(), 1);
}
