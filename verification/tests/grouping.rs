use rexplore::impl_grouper::{
    extract_for_type, extract_trait_name, group_impl_items, parse_impl_block, render_impl_group,
    ItemGroup,
};
use rexplore::namespace_manager::NamespaceManager;
use rexplore::public_item::PublicItem;
use rexplore::tokens::Token;
use std::collections::HashMap;

/// Tokens for a text: words separated by single spaces; `impl`, `for` and
/// `where` are keywords, `pub` a qualifier, `struct` and `fn` kinds, and a
/// word with `::` a path of identifiers ending in a type.
fn toks(text: &str) -> Vec<Token> {
    let mut out = Vec::new();
    for (i, word) in text.split(' ').enumerate() {
        if i > 0 {
            out.push(Token::Whitespace);
        }
        match word {
            "impl" | "for" | "where" => out.push(Token::Keyword(word.to_string())),
            "pub" => out.push(Token::Qualifier(word.to_string())),
            "struct" | "fn" => out.push(Token::Kind(word.to_string())),
            _ => {
                let parts: Vec<&str> = word.split("::").collect();
                for (j, part) in parts.iter().enumerate() {
                    if j > 0 {
                        out.push(Token::Symbol("::".to_string()));
                    }
                    if j + 1 == parts.len() {
                        out.push(Token::Type(part.to_string()));
                    } else {
                        out.push(Token::Identifier(part.to_string()));
                    }
                }
            }
        }
    }
    out
}

fn item(text: &str, id: u32) -> PublicItem {
    PublicItem { tokens: toks(text), parent_id: None, id }
}

fn empty_crate() -> rustdoc_types::Crate {
    rustdoc_types::Crate {
        root: rustdoc_types::Id(0),
        crate_version: None,
        includes_private: false,
        index: HashMap::new(),
        paths: HashMap::new(),
        external_crates: HashMap::new(),
        target: rustdoc_types::Target { triple: "x86_64-unknown-linux-gnu".to_string(), target_features: vec![] },
        format_version: 61,
    }
}

fn ids(items: &[PublicItem]) -> Vec<u32> {
    items.iter().map(|m| m.id).collect()
}

#[test]
fn parse_trait_impl_block() {
    let info = parse_impl_block(&item("impl core::fmt::Debug for Foo", 1)).unwrap();
    assert_eq!(info.trait_name.as_deref(), Some("core::fmt::Debug"));
    assert_eq!(info.for_type, "Foo");
    assert!(info.is_std_trait);
}

#[test]
fn parse_inherent_and_plain_items() {
    let info = parse_impl_block(&item("impl Foo", 1)).unwrap();
    assert_eq!(info.trait_name, None);
    assert_eq!(info.for_type, "Foo");
    assert!(!info.is_std_trait);
    assert!(parse_impl_block(&item("pub struct Foo", 2)).is_none());
}

#[test]
fn trait_name_stops_at_generics() {
    let tokens = vec![
        Token::Whitespace,
        Token::Identifier("core".to_string()),
        Token::Symbol("::".to_string()),
        Token::Type("From".to_string()),
        Token::Symbol("<".to_string()),
        Token::Type("T".to_string()),
        Token::Symbol(">".to_string()),
    ];
    assert_eq!(extract_trait_name(&tokens), "core::From");
}

#[test]
fn for_type_keeps_spaces_inside_generics_only() {
    let tokens = vec![
        Token::Whitespace,
        Token::Type("Map".to_string()),
        Token::Symbol("<".to_string()),
        Token::Type("K".to_string()),
        Token::Symbol(",".to_string()),
        Token::Whitespace,
        Token::Type("V".to_string()),
        Token::Symbol(">".to_string()),
        Token::Whitespace,
        Token::Keyword("where".to_string()),
        Token::Whitespace,
        Token::Type("K".to_string()),
    ];
    assert_eq!(extract_for_type(&tokens), "Map<K, V>");
}

#[test]
fn std_impls_of_one_type_are_condensed() {
    let items = vec![
        item("pub struct Foo", 0),
        item("impl core::fmt::Debug for Foo", 1),
        item("impl core::clone::Clone for Foo", 2),
        item("impl my_crate::Tr for Bar", 3),
    ];
    let groups = group_impl_items(items, &empty_crate());
    assert_eq!(groups.len(), 3);
    match &groups[0] {
        ItemGroup::ImplGroup { impl_item, members, is_std_trait } => {
            assert_eq!(impl_item.id, 2);
            assert_eq!(ids(members), vec![2, 1]);
            assert!(*is_std_trait);
        }
        other => panic!("expected a group, got {:?}", other),
    }
    assert!(matches!(&groups[1], ItemGroup::Single(m) if m.id == 3));
    assert!(matches!(&groups[2], ItemGroup::Single(m) if m.id == 0));
}

#[test]
fn a_non_std_trait_keeps_impls_apart() {
    let items = vec![
        item("impl core::fmt::Debug for Foo", 1),
        item("impl my_crate::Tr for Foo", 2),
    ];
    let groups = group_impl_items(items, &empty_crate());
    assert_eq!(groups.len(), 2);
    assert!(matches!(&groups[0], ItemGroup::Single(m) if m.id == 1));
    assert!(matches!(&groups[1], ItemGroup::Single(m) if m.id == 2));
}

#[test]
fn grouping_keeps_every_item() {
    let items = vec![
        item("impl core::fmt::Debug for Foo", 1),
        item("pub struct Foo", 2),
        item("impl core::clone::Clone for Foo", 3),
        item("impl Foo", 4),
        item("impl core::clone::Clone for Bar", 5),
        item("impl core::fmt::Debug for Bar", 6),
        item("impl my_crate::Tr for Baz", 7),
    ];
    let groups = group_impl_items(items, &empty_crate());
    let mut seen: Vec<u32> = Vec::new();
    for g in &groups {
        match g {
            ItemGroup::Single(m) => seen.push(m.id),
            ItemGroup::ImplGroup { members, .. } => seen.extend(ids(members)),
        }
    }
    seen.sort();
    assert_eq!(seen, vec![1, 2, 3, 4, 5, 6, 7]);
    assert_eq!(groups.len(), 5);
}

#[test]
fn condensed_group_renders_one_line() {
    let members = vec![
        item("impl core::clone::Clone for Foo", 2),
        item("impl core::fmt::Debug for Foo", 1),
    ];
    let mgr = NamespaceManager::new();
    let line = render_impl_group(&members[0], &members, true, &mgr);
    assert_eq!(line, "impl core::clone::Clone + core::fmt::Debug for Foo");
}

#[test]
fn single_member_renders_as_is() {
    let members = vec![item("impl core::clone::Clone for Foo", 2)];
    let mut mgr = NamespaceManager::new();
    mgr.analyze(&["impl core::clone::Clone for Foo".to_string()]);
    let line = render_impl_group(&members[0], &members, true, &mgr);
    assert_eq!(line, "impl Clone for Foo");
}

fn path_tokens(path: &str) -> Vec<Token> {
    let parts: Vec<&str> = path.split("::").collect();
    let mut out = Vec::new();
    for (j, part) in parts.iter().enumerate() {
        if j > 0 {
            out.push(Token::Symbol("::".to_string()));
        }
        if j + 1 == parts.len() {
            out.push(Token::Type(part.to_string()));
        } else {
            out.push(Token::Identifier(part.to_string()));
        }
    }
    out
}

#[test]
fn trait_name_skips_impl_generics() {
    let mut tokens = vec![
        Token::Symbol("<".to_string()),
        Token::Generic("T".to_string()),
        Token::Symbol(">".to_string()),
        Token::Whitespace,
    ];
    tokens.extend(path_tokens("core::fmt::Debug"));
    assert_eq!(extract_trait_name(&tokens), "core::fmt::Debug");
    let mut nested = vec![
        Token::Symbol("<".to_string()),
        Token::Generic("T".to_string()),
        Token::Symbol(":".to_string()),
        Token::Whitespace,
        Token::Type("Into".to_string()),
        Token::Symbol("<".to_string()),
        Token::Primitive("u8".to_string()),
        Token::Symbol(">".to_string()),
        Token::Symbol(">".to_string()),
        Token::Whitespace,
    ];
    nested.extend(path_tokens("core::convert::From"));
    nested.push(Token::Symbol("<".to_string()));
    nested.push(Token::Generic("T".to_string()));
    nested.push(Token::Symbol(">".to_string()));
    assert_eq!(extract_trait_name(&nested), "core::convert::From");
}

#[test]
fn generic_std_impl_is_read() {
    let mut tokens = vec![
        Token::Keyword("impl".to_string()),
        Token::Symbol("<".to_string()),
        Token::Generic("T".to_string()),
        Token::Symbol(">".to_string()),
        Token::Whitespace,
    ];
    tokens.extend(path_tokens("core::fmt::Debug"));
    tokens.push(Token::Whitespace);
    tokens.push(Token::Keyword("for".to_string()));
    tokens.push(Token::Whitespace);
    tokens.push(Token::Type("Foo".to_string()));
    tokens.push(Token::Symbol("<".to_string()));
    tokens.push(Token::Generic("T".to_string()));
    tokens.push(Token::Symbol(">".to_string()));
    let info = parse_impl_block(&PublicItem { tokens, parent_id: None, id: 1 }).unwrap();
    assert_eq!(info.trait_name.as_deref(), Some("core::fmt::Debug"));
    assert_eq!(info.for_type, "Foo<T>");
    assert!(info.is_std_trait);
}

#[test]
fn for_type_keeps_words_apart() {
    let mut tokens = vec![Token::Whitespace, Token::Keyword("dyn".to_string()), Token::Whitespace];
    tokens.extend(path_tokens("core::any::Any"));
    assert_eq!(extract_for_type(&tokens), "dyn core::any::Any");
}

#[test]
fn std_impls_are_grouped_beside_other_traits() {
    let items = vec![
        item("impl core::fmt::Debug for Foo", 1),
        item("impl core::clone::Clone for Foo", 2),
        item("impl my_crate::MyTrait for Foo", 3),
    ];
    let groups = group_impl_items(items, &empty_crate());
    assert_eq!(groups.len(), 2);
    match &groups[0] {
        ItemGroup::ImplGroup { impl_item, members, is_std_trait } => {
            assert_eq!(impl_item.id, 2);
            assert_eq!(ids(members), vec![2, 1]);
            assert!(*is_std_trait);
        }
        other => panic!("expected a group, got {:?}", other),
    }
    assert!(matches!(&groups[1], ItemGroup::Single(m) if m.id == 3));
}
