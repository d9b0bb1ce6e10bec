use rexplore::namespace_manager::{extract_namespace_and_name, NamespaceManager};

#[test]
fn test_extract_namespace_and_name() {
    assert_eq!(
        extract_namespace_and_name("core::marker::Send"),
        Some(("core::marker", "Send"))
    );
    assert_eq!(
        extract_namespace_and_name("std::vec::Vec"),
        Some(("std::vec", "Vec"))
    );
    assert_eq!(extract_namespace_and_name("simple"), None);
}

#[test]
fn test_no_collisions() {
    let mut mgr = NamespaceManager::new();
    let items = vec![
        "impl core::marker::Send for Foo".to_string(),
        "impl core::marker::Sync for Foo".to_string(),
    ];

    mgr.analyze(&items);

    let use_stmts = mgr.generate_use_statements();
    assert!(use_stmts
        .iter()
        .any(|s| s.contains("core::marker::{Send, Sync}")));

    let shortened = mgr.shorten_text("impl core::marker::Send for Foo");
    assert_eq!(shortened, "impl Send for Foo");
}

#[test]
fn test_with_collisions() {
    let mut mgr = NamespaceManager::new();
    let items = vec![
        "type anyhow::Result = core::result::Result".to_string(),
        "fn foo() -> std::io::Result".to_string(),
    ];

    mgr.analyze(&items);

    // Result appears in multiple namespaces, should not be shortened
    let shortened = mgr.shorten_text("type anyhow::Result = core::result::Result");
    assert!(shortened.contains("core::result::Result"));
    assert!(shortened.contains("anyhow::Result"));
}
