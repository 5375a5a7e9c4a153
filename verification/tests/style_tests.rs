use stylist::{
    parse, ClassNameStrategy, MountAction, Style, StyleRegistry, UnmountAction,
};

#[test]
fn counter_names_are_predictable_and_increasing() {
    let mut reg = StyleRegistry::new(ClassNameStrategy::Counter);
    let s1 = Style::create(&mut reg, "prefix", "color: red;").unwrap();
    let s2 = Style::create(&mut reg, "prefix", "color: red;").unwrap();
    let n1 = s1.get_class_name();
    let n2 = s2.get_class_name();
    assert_eq!(n1, "prefix-0");
    assert_eq!(n2, "prefix-1");
    assert_ne!(n1, n2);
    assert_eq!(reg.counter(), 2);
}

#[test]
fn random_names_are_distinct_and_well_formed() {
    let mut reg = StyleRegistry::new(ClassNameStrategy::Random);
    let s1 = Style::create(&mut reg, "pre", "color: red;").unwrap();
    let s2 = Style::create(&mut reg, "pre", "color: red;").unwrap();
    let n1 = s1.get_class_name();
    let n2 = s2.get_class_name();
    assert_ne!(n1, n2);
    assert_eq!(n1.len(), "pre".len() + 1 + 30);
    assert!(n1.starts_with("pre-"));
    assert!(n1["pre-".len()..].chars().all(|c| c.is_ascii_alphanumeric()));
}

#[test]
fn create_registers_rendered_css_with_one_mount() {
    let mut reg = StyleRegistry::new(ClassNameStrategy::Counter);
    let style = Style::create(&mut reg, "app", "color: red;").unwrap();
    let name = style.class_name();
    assert_eq!(reg.style_count(), 1);
    assert!(reg.contains(name.as_str()));
    assert_eq!(reg.mounted_users(name.as_str()), 1);
    assert_eq!(
        reg.lookup_css(name.as_str()),
        Some(String::from(".app-0 {\ncolor: red;\n}"))
    );
}

#[test]
fn create_on_invalid_css_leaves_registry_untouched() {
    let mut reg = StyleRegistry::new(ClassNameStrategy::Counter);
    let r = Style::create(&mut reg, "app", "@page { margin: 1cm; }");
    assert!(r.is_err());
    assert_eq!(reg.style_count(), 0);
    assert_eq!(reg.counter(), 0);
}

#[test]
fn clone_shares_one_resource_and_last_drop_removes_it_once() {
    let mut reg = StyleRegistry::new(ClassNameStrategy::Counter);
    let style = Style::create(&mut reg, "app", "color: red;").unwrap();
    let name = style.class_name();

    let copy = style.clone_handle(&mut reg);
    assert_eq!(copy.class_name(), name);
    assert_eq!(reg.mounted_users(name.as_str()), 2);
    assert_eq!(reg.style_count(), 1);

    // Dropping one handle leaves the injected resource present.
    assert_eq!(style.unmount(&mut reg), UnmountAction::StillMounted);
    assert!(reg.contains(name.as_str()));
    assert_eq!(reg.mounted_users(name.as_str()), 1);

    // Dropping the last handle removes it, exactly once.
    assert_eq!(copy.unmount(&mut reg), UnmountAction::Removed);
    assert!(!reg.contains(name.as_str()));
    assert_eq!(reg.style_count(), 0);
    assert_eq!(copy.unmount(&mut reg), UnmountAction::Missing);
}

#[test]
fn mount_bumps_the_count_and_reports_missing_after_removal() {
    let mut reg = StyleRegistry::new(ClassNameStrategy::Counter);
    let style = Style::create(&mut reg, "app", "color: red;").unwrap();
    let name = style.class_name();
    assert_eq!(style.mount(&mut reg), MountAction::Mounted);
    assert_eq!(reg.mounted_users(name.as_str()), 2);
    assert_eq!(style.unmount(&mut reg), UnmountAction::StillMounted);
    assert_eq!(style.unmount(&mut reg), UnmountAction::Removed);
    assert_eq!(style.mount(&mut reg), MountAction::Missing);
    assert_eq!(reg.style_count(), 0);
}

#[test]
fn replace_swaps_css_and_keeps_identity() {
    let mut reg = StyleRegistry::new(ClassNameStrategy::Counter);
    let style = Style::create(&mut reg, "app", "color: red;").unwrap();
    let name = style.class_name();
    let copy = style.clone_handle(&mut reg);
    let replaced = style.replace(&mut reg, "color: blue;").unwrap();
    assert_eq!(replaced.class_name(), name);
    assert_eq!(
        reg.lookup_css(name.as_str()),
        Some(String::from(".app-0 {\ncolor: blue;\n}"))
    );
    // The mount count is untouched by a replace.
    assert_eq!(reg.mounted_users(name.as_str()), 2);
    let _ = copy;
}

#[test]
fn replace_with_invalid_css_changes_nothing() {
    let mut reg = StyleRegistry::new(ClassNameStrategy::Counter);
    let style = Style::create(&mut reg, "app", "color: red;").unwrap();
    let name = style.class_name();
    let r = style.replace(&mut reg, "@page { }");
    assert!(r.is_err());
    assert_eq!(
        reg.lookup_css(name.as_str()),
        Some(String::from(".app-0 {\ncolor: red;\n}"))
    );
}

#[test]
fn from_scopes_registers_without_reparsing() {
    let mut reg = StyleRegistry::new(ClassNameStrategy::Counter);
    let scopes = parse("width: 100vw;").unwrap();
    let style = Style::from_scopes(&mut reg, "pre", scopes);
    let name = style.get_class_name();
    assert_eq!(name, "pre-0");
    assert_eq!(
        reg.lookup_css(name.as_str()),
        Some(String::from(".pre-0 {\nwidth: 100vw;\n}"))
    );
}

#[test]
fn lookup_of_unknown_name_is_none() {
    let reg = StyleRegistry::new(ClassNameStrategy::Counter);
    assert_eq!(reg.lookup_css("nobody"), None);
    assert_eq!(reg.mounted_users("nobody"), 0);
    assert!(!reg.contains("nobody"));
}

#[test]
fn gen_unique_name_has_prefix_dash_suffix_shape() {
    let name = stylist::gen_unique_name("widget");
    assert_eq!(name.len(), "widget".len() + 1 + 30);
    assert!(name.starts_with("widget-"));
    assert!(name["widget-".len()..].chars().all(|c| c.is_ascii_alphanumeric()));
}

#[test]
fn distinct_prefixes_share_one_counter() {
    let mut reg = StyleRegistry::new(ClassNameStrategy::Counter);
    let a = Style::create(&mut reg, "a", "color: red;").unwrap();
    let b = Style::create(&mut reg, "b", "color: red;").unwrap();
    assert_eq!(a.get_class_name(), "a-0");
    assert_eq!(b.get_class_name(), "b-1");
    assert_eq!(reg.style_count(), 2);
}
