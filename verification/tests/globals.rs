use tinysandbox::globals::{check_js_global_name, is_js_global_name, paths_conflict, JsGlobalRegistry};

fn entries(names: &[&str]) -> Vec<(String, u32)> {
    names.iter().enumerate().map(|(i, n)| ((*n).to_owned(), i as u32)).collect()
}

#[test]
fn names_are_dotted_paths_of_identifiers() {
    for name in ["search", "tools.search", "_a.b_1.C"] {
        assert!(is_js_global_name(name), "{name}");
    }
    for name in ["", ".", "a.", ".a", "a..b", "1a", "a-b", "a b"] {
        assert!(!is_js_global_name(name), "{name}");
    }
}

#[test]
fn reserved_and_invalid_names_are_refused_with_reasons() {
    let reserved = check_js_global_name("console.log").unwrap_err();
    assert_eq!(
        reserved.message(),
        "cannot register reserved name 'console.log'; 'console' is provided by the JavaScript runtime"
    );
    let invalid = check_js_global_name("a b").unwrap_err();
    assert_eq!(
        invalid.message(),
        "cannot register invalid name 'a b'; names are dot-separated paths of [A-Za-z_][A-Za-z0-9_]* segments"
    );
    assert!(check_js_global_name("consoles").is_ok());
}

#[test]
fn a_namespace_conflicts_with_what_is_inside_it_both_ways() {
    assert!(paths_conflict("tools", "tools.search"));
    assert!(paths_conflict("tools.search", "tools"));
    assert!(paths_conflict("tools", "tools"));
    assert!(!paths_conflict("tools", "toolsearch"));
    assert!(!paths_conflict("tools.a", "tools.b"));
}

#[test]
fn a_refused_set_changes_nothing() {
    let mut registry = JsGlobalRegistry::new();
    registry.extend_js_globals(&entries(&["tools.search", "log"])).unwrap();
    let refused = registry.extend_js_globals(&entries(&["other", "tools"])).unwrap_err();
    assert_eq!(refused.message(), "cannot register 'tools'; it conflicts with 'tools.search'");
    assert_eq!(registry.js_global_names(), vec!["log", "tools.search"]);
    let duplicate = registry.replace_js_globals(&entries(&["a", "a"])).unwrap_err();
    assert_eq!(duplicate.message(), "cannot register duplicate name 'a'");
    assert_eq!(registry.js_global_names(), vec!["log", "tools.search"]);
}

#[test]
fn the_first_conflict_in_order_is_named() {
    let mut registry = JsGlobalRegistry::new();
    registry.extend_js_globals(&entries(&["t.z", "t.a", "t.m"])).unwrap();
    let refused = registry.set_js_global("t", 9).unwrap_err();
    assert_eq!(refused.message(), "cannot register 't'; it conflicts with 't.a'");
}

#[test]
fn globals_are_set_replaced_and_removed() {
    let mut registry = JsGlobalRegistry::new();
    registry.set_js_global("a", 1).unwrap();
    registry.set_js_global("a", 2).unwrap();
    registry.set_js_global("b", 3).unwrap();
    assert!(registry.remove_js_global("a"));
    assert!(!registry.remove_js_global("a"));
    assert_eq!(registry.js_global_names(), vec!["b"]);
    registry.replace_js_globals(&entries(&["c", "d.e"])).unwrap();
    assert_eq!(registry.js_global_names(), vec!["c", "d.e"]);
}

#[test]
fn replaced_globals_are_exactly_the_new_ones() {
    let mut registry = JsGlobalRegistry::new();
    registry.extend_js_globals(&entries(&["tools", "log"])).unwrap();
    registry.replace_js_globals(&entries(&["tools.b", "tools.a"])).unwrap();
    assert_eq!(registry.js_global_names(), vec!["tools.a", "tools.b"]);
    assert_eq!(registry.get("tools.b"), Some(0));
    assert_eq!(registry.get("tools.a"), Some(1));
    assert_eq!(registry.get("tools"), None);
    for names in [vec!["a", "a.b"], vec!["a.b", "a"], vec!["x", "y", "x"], vec!["x", "console"]] {
        assert!(registry.replace_js_globals(&entries(&names)).is_err(), "{names:?}");
        assert_eq!(registry.js_global_names(), vec!["tools.a", "tools.b"]);
    }
    registry.replace_js_globals(&entries(&[])).unwrap();
    assert_eq!(registry.js_global_names(), Vec::<String>::new());
}

#[test]
fn a_snapshot_does_not_see_later_changes() {
    let mut registry: JsGlobalRegistry<u32> = JsGlobalRegistry::new();
    assert!(registry.set_js_global("a.b", 1).is_ok());
    let before = registry.snapshot();
    assert!(registry.set_js_global("a.b", 2).is_ok());
    assert!(registry.remove_js_global("a.b"));
    assert_eq!(before.get("a.b"), Some(1));
    assert_eq!(registry.get("a.b"), None);
}
