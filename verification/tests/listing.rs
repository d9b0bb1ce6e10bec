use rexplore::cli::{api_listing, checked_core_api_listing, core_api_listing};
use rexplore::filter::{FilterError, FilterOptions};
use rexplore::public_item::PublicItem;
use rexplore::rexplore_core::impl_grouper::{CrateIndex, ItemKind};
use rexplore::tokens::Token;
use std::collections::HashMap;

/// Tokens for a text: words separated by single spaces; `impl`, `for` and
/// `where` are keywords, `pub` a qualifier, `struct` and `fn` kinds, and a
/// word with `::` a path of identifiers ending in a type.
fn toks(text: &str) -> Vec<Token> {
    let mut out = Vec::new();
    for (i, word) in text.split(' ').enumerate() {
        if i > 0 {
            out.push(Token::Whitespace);
        }
        match word {
            "impl" | "for" | "where" => out.push(Token::Keyword(word.to_string())),
            "pub" => out.push(Token::Qualifier(word.to_string())),
            "struct" | "fn" => out.push(Token::Kind(word.to_string())),
            _ => {
                let parts: Vec<&str> = word.split("::").collect();
                for (j, part) in parts.iter().enumerate() {
                    if j > 0 {
                        out.push(Token::Symbol("::".to_string()));
                    }
                    if j + 1 == parts.len() {
                        out.push(Token::Type(part.to_string()));
                    } else {
                        out.push(Token::Identifier(part.to_string()));
                    }
                }
            }
        }
    }
    out
}

fn item(text: &str, id: u32) -> PublicItem {
    PublicItem { tokens: toks(text), parent_id: None, id }
}

fn empty_crate() -> rustdoc_types::Crate {
    rustdoc_types::Crate {
        root: rustdoc_types::Id(0),
        crate_version: None,
        includes_private: false,
        index: HashMap::new(),
        paths: HashMap::new(),
        external_crates: HashMap::new(),
        target: rustdoc_types::Target { triple: "x86_64-unknown-linux-gnu".to_string(), target_features: vec![] },
        format_version: 61,
    }
}

fn no_filter() -> FilterOptions {
    FilterOptions { keyword: None, regex: None }
}

fn three_items() -> Vec<PublicItem> {
    vec![
        item("pub struct Foo", 0),
        item("impl core::fmt::Debug for Foo", 1),
        item("impl core::clone::Clone for Foo", 2),
    ]
}

#[test]
fn listing_starts_with_use_statements() {
    let lines = api_listing(three_items(), &no_filter(), &empty_crate()).unwrap();
    assert_eq!(
        lines,
        vec![
            "use core::clone::Clone;",
            "use core::fmt::Debug;",
            "",
            "impl Clone + Debug for Foo;",
            "pub struct Foo;",
        ]
    );
}

#[test]
fn listing_filtered_by_keyword() {
    let options = FilterOptions { keyword: Some("Debug".to_string()), regex: None };
    let lines = api_listing(three_items(), &options, &empty_crate()).unwrap();
    assert_eq!(lines, vec!["use core::fmt::Debug;", "", "impl Debug for Foo;"]);
}

#[test]
fn listing_filtered_by_regex() {
    let options = FilterOptions { keyword: None, regex: Some("^pub ".to_string()) };
    let lines = api_listing(three_items(), &options, &empty_crate()).unwrap();
    assert_eq!(lines, vec!["pub struct Foo;"]);
}

#[test]
fn listing_with_invalid_regex_fails() {
    let options = FilterOptions { keyword: None, regex: Some("[".to_string()) };
    match api_listing(three_items(), &options, &empty_crate()) {
        Err(FilterError::InvalidRegex { pattern, .. }) => assert_eq!(pattern, "["),
        Ok(lines) => panic!("expected an error, got {:?}", lines),
    }
}

#[test]
fn listing_of_nothing_is_empty() {
    let lines = api_listing(Vec::new(), &no_filter(), &empty_crate()).unwrap();
    assert!(lines.is_empty());
}

fn with_parent(text: &str, id: u32, parent: u32) -> PublicItem {
    PublicItem { tokens: toks(text), parent_id: Some(parent), id }
}

/// An inherent impl with a method, two std trait impls for one type, a
/// struct, and a method whose parent is no impl block of the listing.
pub fn core_items() -> (Vec<PublicItem>, CrateIndex) {
    let items = vec![
        item("impl Foo", 10),
        with_parent("pub fn bar()", 11, 10),
        item("impl core::fmt::Debug for Foo", 12),
        item("impl core::clone::Clone for Foo", 13),
        item("pub struct Foo", 14),
        with_parent("pub fn orphan()", 15, 99),
    ];
    let mut index = HashMap::new();
    index.insert(10, ItemKind::Impl { trait_id: None });
    index.insert(11, ItemKind::Function);
    index.insert(12, ItemKind::Impl { trait_id: Some(100) });
    index.insert(13, ItemKind::Impl { trait_id: Some(101) });
    index.insert(14, ItemKind::Other);
    index.insert(15, ItemKind::Function);
    let mut paths = HashMap::new();
    paths.insert(100, vec!["core".to_string(), "fmt".to_string(), "Debug".to_string()]);
    paths.insert(101, vec!["core".to_string(), "clone".to_string(), "Clone".to_string()]);
    (items, CrateIndex { index, paths })
}

#[test]
fn core_listing_groups_methods_and_trait_impls() {
    let (items, index) = core_items();
    let lines = core_api_listing(items, &no_filter(), &index).unwrap();
    assert_eq!(
        lines,
        vec![
            "use core::clone::Clone;",
            "use core::fmt::Debug;",
            "",
            "impl Clone + Debug for Foo;",
            "impl Foo {\n    pub fn bar();\n};",
            "pub fn orphan();",
            "pub struct Foo;",
        ]
    );
}

#[test]
fn core_listing_with_invalid_regex_fails() {
    let (items, index) = core_items();
    let options = FilterOptions { keyword: None, regex: Some("(".to_string()) };
    assert!(matches!(
        core_api_listing(items, &options, &index),
        Err(FilterError::InvalidRegex { .. })
    ));
}

#[test]
fn use_statement_gathers_one_namespace() {
    let items = vec![
        item("pub fn anyhow::bail<T>(message: T) -> anyhow::Result<T>", 1),
        item("pub struct anyhow::Error", 2),
        item("pub trait anyhow::Context<T>", 3),
    ];
    let lines = api_listing(items, &no_filter(), &empty_crate()).unwrap();
    assert_eq!(
        lines,
        vec![
            "use anyhow::{Context, Error, Result};",
            "",
            "pub fn anyhow::bail<T>(message: T) -> Result<T>;",
            "pub struct Error;",
            "pub trait Context<T>;",
        ]
    );
}

fn uncuttable_pair() -> (Vec<PublicItem>, CrateIndex) {
    let items = vec![
        item("€€ core::fmt::Debug for Foo", 1),
        item("€€ core::clone::Clone for Foo", 2),
    ];
    let mut index = HashMap::new();
    index.insert(1, ItemKind::Impl { trait_id: Some(100) });
    index.insert(2, ItemKind::Impl { trait_id: Some(101) });
    let mut paths = HashMap::new();
    paths.insert(100, vec!["core".to_string(), "fmt".to_string(), "Debug".to_string()]);
    paths.insert(101, vec!["core".to_string(), "clone".to_string(), "Clone".to_string()]);
    (items, CrateIndex { index, paths })
}

#[test]
fn checked_listing_refuses_uncuttable_groups_only() {
    let (items, index) = uncuttable_pair();
    assert!(checked_core_api_listing(items, &no_filter(), &index).is_none());
    let (items, index) = uncuttable_pair();
    let options = FilterOptions { keyword: Some("Debug".to_string()), regex: None };
    let lines = checked_core_api_listing(items, &options, &index).unwrap().unwrap();
    assert_eq!(lines, vec!["use core::fmt::Debug;", "", "€€ Debug for Foo;"]);
    let (items, index) = uncuttable_pair();
    let options = FilterOptions { keyword: None, regex: Some("(".to_string()) };
    assert!(matches!(
        checked_core_api_listing(items, &options, &index),
        Some(Err(FilterError::InvalidRegex { .. }))
    ));
    let (items, index) = core_items();
    let lines = checked_core_api_listing(items, &no_filter(), &index).unwrap().unwrap();
    assert_eq!(lines.len(), 7);
}
