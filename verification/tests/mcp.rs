use rexplore::mcp::{
    check_tool_call, checked_render_exploration, classify_method, compile_filter, explore_args, exploration_failed,
    method_not_found, render_exploration, RpcMethod, ToolCall,
};
use rexplore::public_item::PublicItem;
use rexplore::rexplore_core::impl_grouper::{CrateIndex, ItemKind};
use rexplore::tokens::Token;
use std::collections::HashMap;

/// Tokens for a text: words separated by single spaces; `impl`, `for` and
/// `where` are keywords, `pub` a qualifier, `struct` and `fn` kinds, and a
/// word with `::` a path of identifiers ending in a type.
fn toks(text: &str) -> Vec<Token> {
    let mut out = Vec::new();
    for (i, word) in text.split(' ').enumerate() {
        if i > 0 {
            out.push(Token::Whitespace);
        }
        match word {
            "impl" | "for" | "where" => out.push(Token::Keyword(word.to_string())),
            "pub" => out.push(Token::Qualifier(word.to_string())),
            "struct" | "fn" => out.push(Token::Kind(word.to_string())),
            _ => {
                let parts: Vec<&str> = word.split("::").collect();
                for (j, part) in parts.iter().enumerate() {
                    if j > 0 {
                        out.push(Token::Symbol("::".to_string()));
                    }
                    if j + 1 == parts.len() {
                        out.push(Token::Type(part.to_string()));
                    } else {
                        out.push(Token::Identifier(part.to_string()));
                    }
                }
            }
        }
    }
    out
}

fn item(text: &str, id: u32) -> PublicItem {
    PublicItem { tokens: toks(text), parent_id: None, id }
}

fn with_parent(text: &str, id: u32, parent: u32) -> PublicItem {
    PublicItem { tokens: toks(text), parent_id: Some(parent), id }
}

/// An inherent impl with a method, two std trait impls for one type, a
/// struct, and a method whose parent is no impl block of the listing.
pub fn core_items() -> (Vec<PublicItem>, CrateIndex) {
    let items = vec![
        item("impl Foo", 10),
        with_parent("pub fn bar()", 11, 10),
        item("impl core::fmt::Debug for Foo", 12),
        item("impl core::clone::Clone for Foo", 13),
        item("pub struct Foo", 14),
        with_parent("pub fn orphan()", 15, 99),
    ];
    let mut index = HashMap::new();
    index.insert(10, ItemKind::Impl { trait_id: None });
    index.insert(11, ItemKind::Function);
    index.insert(12, ItemKind::Impl { trait_id: Some(100) });
    index.insert(13, ItemKind::Impl { trait_id: Some(101) });
    index.insert(14, ItemKind::Other);
    index.insert(15, ItemKind::Function);
    let mut paths = HashMap::new();
    paths.insert(100, vec!["core".to_string(), "fmt".to_string(), "Debug".to_string()]);
    paths.insert(101, vec!["core".to_string(), "clone".to_string(), "Clone".to_string()]);
    (items, CrateIndex { index, paths })
}

fn tool(name: Option<&str>, has_arguments: bool) -> Option<ToolCall> {
    Some(ToolCall { name: name.map(|n| n.to_string()), has_arguments })
}

#[test]
fn methods_are_classified() {
    assert_eq!(classify_method("initialize"), RpcMethod::Initialize);
    assert_eq!(classify_method("tools/list"), RpcMethod::ToolsList);
    assert_eq!(classify_method("tools/call"), RpcMethod::ToolsCall);
    assert_eq!(classify_method("resources/list"), RpcMethod::Unknown);
    assert_eq!(classify_method(""), RpcMethod::Unknown);
}

#[test]
fn unknown_method_error() {
    let e = method_not_found("resources/list");
    assert_eq!(e.code, -32601);
    assert_eq!(e.message, "Method not found: resources/list");
}

#[test]
fn tool_call_without_params() {
    let e = check_tool_call(&None).unwrap_err();
    assert_eq!(e.code, -32602);
    assert_eq!(e.message, "Missing params");
}

#[test]
fn tool_call_without_name() {
    let e = check_tool_call(&tool(None, true)).unwrap_err();
    assert_eq!(e.code, -32602);
    assert_eq!(e.message, "Missing tool name");
}

#[test]
fn tool_call_of_unknown_tool() {
    let e = check_tool_call(&tool(Some("other_tool"), true)).unwrap_err();
    assert_eq!(e.code, -32602);
    assert_eq!(e.message, "Unknown tool: other_tool");
}

#[test]
fn tool_call_without_arguments() {
    let e = check_tool_call(&tool(Some("explore_crate"), false)).unwrap_err();
    assert_eq!(e.code, -32602);
    assert_eq!(e.message, "Missing arguments");
}

#[test]
fn tool_call_accepted() {
    assert!(check_tool_call(&tool(Some("explore_crate"), true)).is_ok());
}

#[test]
fn failed_exploration_error() {
    let e = exploration_failed("Invalid filter regex");
    assert_eq!(e.code, -32603);
    assert_eq!(e.message, "Exploration failed: Invalid filter regex");
}

#[test]
fn tool_argument_defaults() {
    let a = explore_args(None, None, None, None);
    assert_eq!(a.manifest_path, "./Cargo.toml");
    assert_eq!(a.package, None);
    assert_eq!(a.filter, None);
    assert!(a.group_impls);
    let b = explore_args(
        Some("../x/Cargo.toml".to_string()),
        Some("tokio".to_string()),
        Some("Runtime".to_string()),
        Some(false),
    );
    assert_eq!(b.manifest_path, "../x/Cargo.toml");
    assert_eq!(b.package.as_deref(), Some("tokio"));
    assert_eq!(b.filter.as_deref(), Some("Runtime"));
    assert!(!b.group_impls);
}

#[test]
fn filter_compilation() {
    assert!(compile_filter(&None).unwrap().is_none());
    let f = compile_filter(&Some("Run.*time".to_string())).unwrap().unwrap();
    assert_eq!(f.as_str(), "Run.*time");
    assert_eq!(compile_filter(&Some("(".to_string())).unwrap_err(), "Invalid filter regex");
}

#[test]
fn exploration_grouped() {
    let (items, index) = core_items();
    let text = render_exploration(items, &None, true, &index);
    assert_eq!(
        text,
        "impl Clone + Debug for Foo\nimpl Foo {\n    pub fn bar();\n}\npub fn orphan()\npub struct Foo\n"
    );
}

#[test]
fn exploration_ungrouped() {
    let (items, index) = core_items();
    let text = render_exploration(items, &None, false, &index);
    assert_eq!(
        text,
        "impl Foo\npub fn bar()\nimpl Debug for Foo\nimpl Clone for Foo\npub struct Foo\npub fn orphan()\n"
    );
}

#[test]
fn exploration_filtered() {
    let (items, index) = core_items();
    let filter = compile_filter(&Some("Debug|struct".to_string())).unwrap();
    let text = render_exploration(items, &filter, true, &index);
    assert_eq!(text, "impl Debug for Foo\npub struct Foo\n");
}

#[test]
fn exploration_with_nothing_left() {
    let (items, index) = core_items();
    let filter = compile_filter(&Some("zzz".to_string())).unwrap();
    assert_eq!(
        render_exploration(items, &filter, true, &index),
        "No public items found (filter may be too restrictive)\n"
    );
    assert_eq!(
        render_exploration(Vec::new(), &None, true, &index),
        "No public items found\n"
    );
}

fn uncuttable_pair() -> (Vec<PublicItem>, CrateIndex) {
    let items = vec![
        item("€€ core::fmt::Debug for Foo", 1),
        item("€€ core::clone::Clone for Foo", 2),
    ];
    let mut index = HashMap::new();
    index.insert(1, ItemKind::Impl { trait_id: Some(100) });
    index.insert(2, ItemKind::Impl { trait_id: Some(101) });
    let mut paths = HashMap::new();
    paths.insert(100, vec!["core".to_string(), "fmt".to_string(), "Debug".to_string()]);
    paths.insert(101, vec!["core".to_string(), "clone".to_string(), "Clone".to_string()]);
    (items, CrateIndex { index, paths })
}

#[test]
fn checked_exploration_refuses_uncuttable_groups_only() {
    let (items, index) = uncuttable_pair();
    assert!(checked_render_exploration(items, &None, true, &index).is_none());
    let (items, index) = uncuttable_pair();
    assert_eq!(
        checked_render_exploration(items, &None, false, &index).unwrap(),
        "€€ Debug for Foo\n€€ Clone for Foo\n"
    );
    let (items, index) = uncuttable_pair();
    let filter = compile_filter(&Some("zzz".to_string())).unwrap();
    assert_eq!(
        checked_render_exploration(items, &filter, true, &index).unwrap(),
        "No public items found (filter may be too restrictive)\n"
    );
    let (items, index) = core_items();
    assert_eq!(
        checked_render_exploration(items, &None, true, &index).unwrap(),
        "impl Clone + Debug for Foo\nimpl Foo {\n    pub fn bar();\n}\npub fn orphan()\npub struct Foo\n"
    );
}
