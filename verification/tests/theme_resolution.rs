use orbtk_core::theme::{Selector, Style, Theme, Value};

fn demo_theme() -> Theme {
    let mut base = Style::new(String::new());
    base.set_property("background".to_owned(), Value::Str("$accent".to_owned()));
    base.set_property("font_size".to_owned(), Value::Num(12));
    base.set_state_property(
        "pressed".to_owned(),
        "background".to_owned(),
        Value::Str("#0000FF".to_owned()),
    );
    let mut button = Style::new("base".to_owned());
    button.set_property("font_size".to_owned(), Value::Num(14));
    let mut theme = Theme::new();
    theme.insert_style("base".to_owned(), base);
    theme.insert_style("button".to_owned(), button);
    theme.insert_resource("accent".to_owned(), Value::Str("#FF0000".to_owned()));
    theme
}

#[test]
fn resource_reference_resolves_to_resource() {
    let theme = demo_theme();
    let selector = Selector::new("base".to_owned());
    let v = theme.property(&"background".to_owned(), &selector);
    match v {
        Some(Value::Str(s)) => assert_eq!(s, "#FF0000".to_owned()),
        _ => panic!(),
    }
}

#[test]
fn missing_resource_resolves_to_no_value() {
    let mut style = Style::new(String::new());
    style.set_property("background".to_owned(), Value::Str("$missing".to_owned()));
    let mut theme = Theme::new();
    theme.insert_style("plain".to_owned(), style);
    let selector = Selector::new("plain".to_owned());
    let v = theme.property(&"background".to_owned(), &selector);
    assert!(v.is_none());
}

#[test]
fn base_property_visible_through_derived_style() {
    let theme = demo_theme();
    let selector = Selector::new("button".to_owned());
    // defined only on the base: resolved through the chain
    let v = theme.property(&"background".to_owned(), &selector);
    match v {
        Some(Value::Str(s)) => assert_eq!(s, "#FF0000".to_owned()),
        _ => panic!(),
    }
    // defined on both: the override wins
    let v2 = theme.property(&"font_size".to_owned(), &selector);
    match v2 {
        Some(Value::Num(n)) => assert_eq!(n, 14),
        _ => panic!(),
    }
}

#[test]
fn state_properties_take_precedence() {
    let theme = demo_theme();
    let mut selector = Selector::new("base".to_owned());
    selector.set_state("pressed".to_owned());
    let v = theme.property(&"background".to_owned(), &selector);
    match v {
        Some(Value::Str(s)) => assert_eq!(s, "#0000FF".to_owned()),
        _ => panic!(),
    }
}

#[test]
fn resolution_is_deterministic() {
    let theme = demo_theme();
    let selector = Selector::new("button".to_owned());
    let a = theme.property(&"background".to_owned(), &selector);
    let b = theme.property(&"background".to_owned(), &selector);
    match (a, b) {
        (Some(Value::Str(x)), Some(Value::Str(y))) => assert_eq!(x, y),
        _ => panic!(),
    }
}

#[test]
fn unknown_style_falls_back_to_base_style() {
    let theme = demo_theme();
    let selector = Selector::new("no_such_style".to_owned());
    let v = theme.property(&"font_size".to_owned(), &selector);
    match v {
        Some(Value::Num(n)) => assert_eq!(n, 12),
        _ => panic!(),
    }
}

#[test]
fn extend_replaces_styles_and_resources() {
    let theme = demo_theme();
    let mut other = Theme::new();
    let mut loud = Style::new(String::new());
    loud.set_property("font_size".to_owned(), Value::Num(20));
    other.insert_style("button".to_owned(), loud);
    other.insert_resource("accent".to_owned(), Value::Str("#00FF00".to_owned()));
    let merged = theme.extend(other);
    let selector = Selector::new("button".to_owned());
    match merged.property(&"font_size".to_owned(), &selector) {
        Some(Value::Num(n)) => assert_eq!(n, 20),
        _ => panic!(),
    }
    let base_sel = Selector::new("base".to_owned());
    match merged.property(&"background".to_owned(), &base_sel) {
        Some(Value::Str(s)) => assert_eq!(s, "#00FF00".to_owned()),
        _ => panic!(),
    }
}

#[test]
fn update_state_follows_flags() {
    let mut selector = Selector::new("base".to_owned());
    selector.set_dirty(false);
    orbtk_core::theme::update_state(&"pressed".to_owned(), true, &mut selector);
    assert!(selector.has_state(&"pressed".to_owned()));
    assert!(selector.dirty);
    selector.set_dirty(false);
    orbtk_core::theme::update_state(&"pressed".to_owned(), false, &mut selector);
    assert!(!selector.has_state(&"pressed".to_owned()));
    assert!(selector.dirty);
}

#[test]
fn state_key_missing_falls_back_to_plain_cascade() {
    let theme = demo_theme();
    // font_size is not overridden by the pressed state: the plain value holds
    let mut selector = Selector::new("base".to_owned());
    selector.set_state("pressed".to_owned());
    match theme.property(&"font_size".to_owned(), &selector) {
        Some(Value::Num(n)) => assert_eq!(n, 12),
        _ => panic!(),
    }
    // through a derived style: the state found on the base still wins for
    // keys it binds, and plain resolution serves the rest
    let mut derived = Selector::new("button".to_owned());
    derived.set_state("pressed".to_owned());
    match theme.property(&"background".to_owned(), &derived) {
        Some(Value::Str(s)) => assert_eq!(s, "#0000FF".to_owned()),
        _ => panic!(),
    }
    match theme.property(&"font_size".to_owned(), &derived) {
        Some(Value::Num(n)) => assert_eq!(n, 14),
        _ => panic!(),
    }
}
