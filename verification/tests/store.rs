use wmde_settings::settings::store::{as_bool, as_text, format_text, same_value};

/// Both texts read as the same floating-point number.
fn numeric_equal(a: &str, b: &str) -> bool {
    match (a.trim().parse::<f64>(), b.trim().parse::<f64>()) {
        (Ok(x), Ok(y)) => x == y,
        _ => false,
    }
}

fn same(a: &str, b: &str) -> bool {
    same_value(a, b, numeric_equal(a, b))
}

#[test]
fn numbers_compare_as_numbers() {
    assert!(same("10", "10"));
    assert!(same(" 10 ", "10"));
    assert!(same("10.0", "10"));
    assert!(same("50.4501", "50.45010"));
    assert!(!same("10", "11"));
}

#[test]
fn identifiers_and_strings_compare_as_text() {
    assert!(same("Celsius", "Celsius"));
    assert!(!same("Celsius", "Fahrenheit"));
    // A quoted string and a bare identifier are different values on disk.
    assert!(!same("\"Celsius\"", "Celsius"));
}

#[test]
fn booleans_are_read_out_of_raw_text() {
    assert_eq!(as_bool("true"), Some(true));
    assert_eq!(as_bool(" false "), Some(false));
    assert_eq!(as_bool("Celsius"), None);
}

#[test]
fn integers_decide_without_the_float_answer() {
    // Two integers are compared as integers, whatever the caller says of floats.
    assert!(same_value("+7", "7", false));
    assert!(!same_value("7", "8", true));
    // Equal trimmed text is the same value even when nothing parses.
    assert!(same_value(" Celsius", "Celsius ", false));
    // Otherwise the float comparison decides.
    assert!(same_value("1e1", "10", true));
    assert!(!same_value("1e1", "10", false));
}

#[test]
fn text_is_quoted_and_escaped_by_ron() {
    assert_eq!(as_text("\"Kyiv\""), Some("Kyiv".to_owned()));
    assert_eq!(format_text("Kyiv"), "\"Kyiv\"");
    let awkward = "say \"hi\"\\";
    let encoded = format_text(awkward);
    assert_ne!(encoded, awkward);
    assert_eq!(as_text(&encoded).as_deref(), Some(awkward));
    assert_eq!(as_text("Celsius"), None);
}
