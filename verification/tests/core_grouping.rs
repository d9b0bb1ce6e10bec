use rexplore::namespace_manager::NamespaceManager;
use rexplore::public_item::PublicItem;
use rexplore::rexplore_core::impl_grouper::{
    all_condensed_cuttable, group_impl_items, is_std_trait, render_impl_with_methods, render_trait_impl_group, CrateIndex,
    ItemGroup, ItemKind,
};
use rexplore::tokens::Token;
use std::collections::HashMap;

/// Tokens for a text: words separated by single spaces; `impl`, `for` and
/// `where` are keywords, `pub` a qualifier, `struct` and `fn` kinds, and a
/// word with `::` a path of identifiers ending in a type.
fn toks(text: &str) -> Vec<Token> {
    let mut out = Vec::new();
    for (i, word) in text.split(' ').enumerate() {
        if i > 0 {
            out.push(Token::Whitespace);
        }
        match word {
            "impl" | "for" | "where" => out.push(Token::Keyword(word.to_string())),
            "pub" => out.push(Token::Qualifier(word.to_string())),
            "struct" | "fn" => out.push(Token::Kind(word.to_string())),
            _ => {
                let parts: Vec<&str> = word.split("::").collect();
                for (j, part) in parts.iter().enumerate() {
                    if j > 0 {
                        out.push(Token::Symbol("::".to_string()));
                    }
                    if j + 1 == parts.len() {
                        out.push(Token::Type(part.to_string()));
                    } else {
                        out.push(Token::Identifier(part.to_string()));
                    }
                }
            }
        }
    }
    out
}

fn item(text: &str, id: u32) -> PublicItem {
    PublicItem { tokens: toks(text), parent_id: None, id }
}

fn with_parent(text: &str, id: u32, parent: u32) -> PublicItem {
    PublicItem { tokens: toks(text), parent_id: Some(parent), id }
}

/// An inherent impl with a method, two std trait impls for one type, a
/// struct, and a method whose parent is no impl block of the listing.
pub fn core_items() -> (Vec<PublicItem>, CrateIndex) {
    let items = vec![
        item("impl Foo", 10),
        with_parent("pub fn bar()", 11, 10),
        item("impl core::fmt::Debug for Foo", 12),
        item("impl core::clone::Clone for Foo", 13),
        item("pub struct Foo", 14),
        with_parent("pub fn orphan()", 15, 99),
    ];
    let mut index = HashMap::new();
    index.insert(10, ItemKind::Impl { trait_id: None });
    index.insert(11, ItemKind::Function);
    index.insert(12, ItemKind::Impl { trait_id: Some(100) });
    index.insert(13, ItemKind::Impl { trait_id: Some(101) });
    index.insert(14, ItemKind::Other);
    index.insert(15, ItemKind::Function);
    let mut paths = HashMap::new();
    paths.insert(100, vec!["core".to_string(), "fmt".to_string(), "Debug".to_string()]);
    paths.insert(101, vec!["core".to_string(), "clone".to_string(), "Clone".to_string()]);
    (items, CrateIndex { index, paths })
}

fn ids(items: &[PublicItem]) -> Vec<u32> {
    items.iter().map(|m| m.id).collect()
}

#[test]
fn std_trait_by_path() {
    let (_, index) = core_items();
    assert!(is_std_trait(100, &index));
    assert!(is_std_trait(101, &index));
    assert!(!is_std_trait(7, &index));
    let mut paths = HashMap::new();
    paths.insert(1, vec!["serde".to_string(), "Serialize".to_string()]);
    paths.insert(2, vec![]);
    paths.insert(3, vec!["alloc".to_string(), "string".to_string(), "ToString".to_string()]);
    let index = CrateIndex { index: HashMap::new(), paths };
    assert!(!is_std_trait(1, &index));
    assert!(!is_std_trait(2, &index));
    assert!(is_std_trait(3, &index));
}

#[test]
fn core_grouping_places_every_kind() {
    let (items, index) = core_items();
    let groups = group_impl_items(items, &index);
    assert_eq!(groups.len(), 4);
    match &groups[0] {
        ItemGroup::TraitImplGroup { members } => assert_eq!(ids(members), vec![13, 12]),
        other => panic!("expected a trait impl group, got {:?}", other),
    }
    match &groups[1] {
        ItemGroup::ImplWithMethods { impl_item, methods } => {
            assert_eq!(impl_item.id, 10);
            assert_eq!(ids(methods), vec![11]);
        }
        other => panic!("expected an impl with methods, got {:?}", other),
    }
    assert!(matches!(&groups[2], ItemGroup::Single(m) if m.id == 15));
    assert!(matches!(&groups[3], ItemGroup::Single(m) if m.id == 14));
}

#[test]
fn lone_std_impl_and_generic_impls_stay_single() {
    let items = vec![
        item("impl core::fmt::Debug for Foo", 1),
        item("impl core::fmt::Debug for Vec<T>", 2),
        item("impl core::clone::Clone for Bar where T", 3),
    ];
    let mut index = HashMap::new();
    index.insert(1, ItemKind::Impl { trait_id: Some(100) });
    index.insert(2, ItemKind::Impl { trait_id: Some(100) });
    index.insert(3, ItemKind::Impl { trait_id: Some(101) });
    let mut paths = HashMap::new();
    paths.insert(100, vec!["core".to_string(), "fmt".to_string(), "Debug".to_string()]);
    paths.insert(101, vec!["core".to_string(), "clone".to_string(), "Clone".to_string()]);
    let groups = group_impl_items(items, &CrateIndex { index, paths });
    assert_eq!(groups.len(), 3);
    assert!(matches!(&groups[0], ItemGroup::Single(m) if m.id == 1));
    assert!(matches!(&groups[1], ItemGroup::Single(m) if m.id == 2));
    assert!(matches!(&groups[2], ItemGroup::Single(m) if m.id == 3));
}

#[test]
fn second_impl_block_with_same_id_gets_no_methods() {
    let items = vec![
        item("impl Foo", 10),
        item("impl Foo", 10),
        with_parent("pub fn bar()", 11, 10),
    ];
    let mut index = HashMap::new();
    index.insert(10, ItemKind::Impl { trait_id: None });
    index.insert(11, ItemKind::Function);
    let groups = group_impl_items(items, &CrateIndex { index, paths: HashMap::new() });
    assert_eq!(groups.len(), 2);
    assert!(matches!(&groups[0], ItemGroup::ImplWithMethods { methods, .. } if methods.len() == 1));
    assert!(matches!(&groups[1], ItemGroup::Single(m) if m.id == 10));
}

#[test]
fn items_unknown_to_the_index_stay_single() {
    let items = vec![item("impl core::fmt::Debug for Foo", 1), item("pub struct Foo", 2)];
    let groups = group_impl_items(items, &CrateIndex { index: HashMap::new(), paths: HashMap::new() });
    assert_eq!(groups.len(), 2);
    assert!(matches!(&groups[0], ItemGroup::Single(m) if m.id == 1));
    assert!(matches!(&groups[1], ItemGroup::Single(m) if m.id == 2));
}

#[test]
fn trait_impl_group_line() {
    let members = vec![
        item("impl core::clone::Clone for Foo", 13),
        item("impl core::fmt::Debug for Foo", 12),
    ];
    let mgr = NamespaceManager::new();
    assert_eq!(
        render_trait_impl_group(&members, &mgr),
        "impl core::clone::Clone + core::fmt::Debug for Foo"
    );
    assert_eq!(render_trait_impl_group(&[], &mgr), "");
}

#[test]
fn trait_impl_group_skips_impl_generics() {
    let members = vec![
        item("impl <T> core::convert::From<T> for Foo", 1),
        item("impl core::fmt::Debug for Foo where T", 2),
    ];
    let mgr = NamespaceManager::new();
    assert_eq!(
        render_trait_impl_group(&members, &mgr),
        "impl core::convert::From + core::fmt::Debug for Foo"
    );
}

#[test]
fn impl_block_with_methods() {
    let mut mgr = NamespaceManager::new();
    mgr.analyze(&["pub fn new() -> std::io::Result".to_string()]);
    let methods = vec![
        with_parent("pub fn new() -> std::io::Result", 2, 1),
        with_parent("pub fn len();", 3, 1),
    ];
    assert_eq!(
        render_impl_with_methods(&item("impl Foo", 1), &methods, &mgr),
        "impl Foo {\n    pub fn new() -> Result;\n    pub fn len();\n}"
    );
    assert_eq!(render_impl_with_methods(&item("impl Foo;", 1), &[], &mgr), "impl Foo;");
}

fn two_debug_like(prefix: &str) -> (Vec<PublicItem>, CrateIndex) {
    let items = vec![
        item(&format!("{} core::fmt::Debug for Foo", prefix), 1),
        item(&format!("{} core::clone::Clone for Foo", prefix), 2),
    ];
    let mut index = HashMap::new();
    index.insert(1, ItemKind::Impl { trait_id: Some(100) });
    index.insert(2, ItemKind::Impl { trait_id: Some(101) });
    let mut paths = HashMap::new();
    paths.insert(100, vec!["core".to_string(), "fmt".to_string(), "Debug".to_string()]);
    paths.insert(101, vec!["core".to_string(), "clone".to_string(), "Clone".to_string()]);
    (items, CrateIndex { index, paths })
}

#[test]
fn condensed_impls_cut_at_byte_four() {
    let (items, index) = core_items();
    assert!(all_condensed_cuttable(&items, &index));
    let (items, index) = two_debug_like("impl");
    assert!(all_condensed_cuttable(&items, &index));
    // "ÉÉ" is four bytes: the cut falls after it.
    let (items, index) = two_debug_like("ÉÉ");
    assert!(all_condensed_cuttable(&items, &index));
    let mgr = NamespaceManager::new();
    assert_eq!(
        render_trait_impl_group(&items, &mgr),
        "impl core::fmt::Debug + core::clone::Clone for Foo"
    );
    // "€€" is six bytes: no character starts at byte four.
    let (items, index) = two_debug_like("€€");
    assert!(!all_condensed_cuttable(&items, &index));
}

#[test]
fn a_lone_impl_need_not_be_cuttable() {
    let (mut items, index) = two_debug_like("€€");
    items.truncate(1);
    assert!(all_condensed_cuttable(&items, &index));
}

#[test]
fn core_grouping_keeps_every_item() {
    let (mut items, mut index) = core_items();
    items.push(item("impl core::fmt::Display", 16));
    index.index.insert(16, ItemKind::Impl { trait_id: Some(100) });
    let all: Vec<u32> = ids(&items);
    let groups = group_impl_items(items, &index);
    let mut seen: Vec<u32> = Vec::new();
    for g in &groups {
        match g {
            ItemGroup::Single(m) => seen.push(m.id),
            ItemGroup::TraitImplGroup { members } => seen.extend(ids(members)),
            ItemGroup::ImplWithMethods { impl_item, methods } => {
                seen.push(impl_item.id);
                seen.extend(ids(methods));
            }
        }
    }
    seen.sort();
    assert_eq!(seen, all);
}

#[test]
fn nested_impl_generics_are_skipped() {
    let mgr = NamespaceManager::new();
    assert_eq!(
        render_trait_impl_group(&[item("impl<T: Into<u8>> Debug for Foo<T>", 1)], &mgr),
        "impl Debug for Foo<T>"
    );
    assert_eq!(
        render_trait_impl_group(&[item("impl<F: Fn() -> u8> Debug for Foo<F>", 1)], &mgr),
        "impl Debug for Foo<F>"
    );
}
