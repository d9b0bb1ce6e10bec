use rexplore::filter::{filter_by_keyword, filter_items, select_items, FilterOptions};
use rexplore::namespace_manager::{extract_namespace_and_name, NamespaceManager};
use rexplore::public_item::PublicItem;
use rexplore::tokens::{tokens_to_string, Token};

fn strings(v: &[&str]) -> Vec<String> {
    v.iter().map(|s| s.to_string()).collect()
}

fn word_item(text: &str, id: u32) -> PublicItem {
    PublicItem { tokens: vec![Token::Identifier(text.to_string())], parent_id: None, id }
}

#[test]
fn keyword_keeps_containing_items_in_order() {
    let items = strings(&["pub struct Runtime", "pub fn spawn()", "impl Runtime"]);
    assert_eq!(filter_by_keyword(&items, "Runtime"), strings(&["pub struct Runtime", "impl Runtime"]));
    assert_eq!(filter_by_keyword(&items, "nothing"), Vec::<String>::new());
}

#[test]
fn keyword_wins_over_regex() {
    let items = strings(&["pub struct Runtime", "pub fn spawn()"]);
    let options = FilterOptions { keyword: Some("spawn".to_string()), regex: Some("[".to_string()) };
    assert_eq!(filter_items(&items, &options).unwrap(), strings(&["pub fn spawn()"]));
}

#[test]
fn regex_keeps_matching_items() {
    let items = strings(&["pub trait Serialize", "pub struct Serializer", "pub trait Deserialize"]);
    let options = FilterOptions { keyword: None, regex: Some("^pub trait (Serialize|Deserialize)".to_string()) };
    assert_eq!(
        filter_items(&items, &options).unwrap(),
        strings(&["pub trait Serialize", "pub trait Deserialize"])
    );
}

#[test]
fn no_filter_keeps_everything() {
    let items = strings(&["a", "b", "a"]);
    let options = FilterOptions { keyword: None, regex: None };
    assert_eq!(filter_items(&items, &options).unwrap(), items);
}

#[test]
fn selected_items_follow_their_texts() {
    let items = vec![word_item("a", 1), word_item("b", 2), word_item("c", 3)];
    let texts = strings(&["a", "b", "c"]);
    let passed = strings(&["c", "a"]);
    let kept: Vec<u32> = select_items(items, &texts, &passed).iter().map(|m| m.id).collect();
    assert_eq!(kept, vec![1, 3]);
}

#[test]
fn tokens_render_to_text() {
    let tokens = vec![
        Token::Qualifier("pub".to_string()),
        Token::Whitespace,
        Token::Kind("fn".to_string()),
        Token::Whitespace,
        Token::Function("len".to_string()),
        Token::Symbol("(".to_string()),
        Token::Symbol(")".to_string()),
    ];
    assert_eq!(tokens_to_string(&tokens), "pub fn len()");
    assert_eq!(Token::Whitespace.text(), " ");
    assert_eq!(Token::Keyword("impl".to_string()).text(), "impl");
}

#[test]
fn namespace_statistics() {
    let mut mgr = NamespaceManager::new();
    mgr.analyze(&strings(&[
        "type anyhow::Result = core::result::Result",
        "impl core::fmt::Debug for my::Foo",
        "fn f() -> std::io::Result",
    ]));
    let st = mgr.stats();
    assert_eq!(st.total_unique_names, 3);
    assert_eq!(st.names_with_collisions, 1);
    assert_eq!(st.shortenable_paths, 2);
    assert_eq!(st.unique_namespaces, 3);
}

#[test]
fn use_statements_sorted_by_namespace_and_name() {
    let mut mgr = NamespaceManager::new();
    mgr.analyze(&strings(&["impl std::ops::RangeFrom for std::ops::Range", "fn f() -> core::fmt::Debug"]));
    assert_eq!(
        mgr.generate_use_statements(),
        strings(&["use core::fmt::Debug;", "use std::ops::{Range, RangeFrom};"])
    );
    assert_eq!(mgr.shorten_text("std::ops::RangeFrom and std::ops::Range"), "RangeFrom and Range");
}

#[test]
fn nothing_analyzed_shortens_nothing() {
    let mgr = NamespaceManager::new();
    assert!(mgr.generate_use_statements().is_empty());
    assert_eq!(mgr.shorten_text("impl core::fmt::Debug for Foo"), "impl core::fmt::Debug for Foo");
}

#[test]
fn lowercase_names_are_not_recorded_but_never_is() {
    let mut mgr = NamespaceManager::new();
    mgr.analyze(&strings(&["fn f() -> core::primitive::never", "fn g() -> std::io::stdin"]));
    assert_eq!(mgr.generate_use_statements(), strings(&["use core::primitive::never;"]));
    assert_eq!(mgr.shorten_text("std::io::stdin"), "std::io::stdin");
}

#[test]
fn text_without_shortenable_paths_is_unchanged() {
    let mut mgr = NamespaceManager::new();
    mgr.analyze(&strings(&["impl core::fmt::Debug for Foo"]));
    assert_eq!(mgr.shorten_text("pub fn len(&self) -> usize"), "pub fn len(&self) -> usize");
    assert_eq!(mgr.shorten_text("fmt::Debug"), "fmt::Debug");
}

#[test]
fn split_paths_join_back() {
    for path in ["core::marker::Send", "a::b", "::X", "x::"] {
        let (ns, name) = extract_namespace_and_name(path).unwrap();
        assert_eq!(format!("{}::{}", ns, name), path);
        assert!(!name.contains("::"));
    }
}

#[test]
fn analyzing_in_batches_records_the_same_paths() {
    let mut once = NamespaceManager::new();
    once.analyze(&strings(&["impl core::fmt::Debug for my::Foo", "fn f() -> std::io::Result"]));
    let mut twice = NamespaceManager::new();
    twice.analyze(&strings(&["impl core::fmt::Debug for my::Foo"]));
    twice.analyze(&strings(&["fn f() -> std::io::Result"]));
    let (a, b) = (once.stats(), twice.stats());
    assert_eq!(a.total_unique_names, b.total_unique_names);
    assert_eq!(a.unique_namespaces, b.unique_namespaces);
    assert_eq!(once.generate_use_statements(), twice.generate_use_statements());
}

#[test]
fn a_later_collision_drops_an_earlier_shortening() {
    let mut mgr = NamespaceManager::new();
    mgr.analyze(&strings(&["x a::Result"]));
    assert_eq!(mgr.shorten_text("a::Result"), "Result");
    mgr.analyze(&strings(&["y b::Result"]));
    assert_eq!(mgr.shorten_text("a::Result and b::Result"), "a::Result and b::Result");
    assert!(mgr.generate_use_statements().is_empty());
    let st = mgr.stats();
    assert_eq!(st.names_with_collisions, 1);
    assert_eq!(st.shortenable_paths, 0);
    assert_eq!(st.total_unique_names, 1);
}

#[test]
fn counts_add_up() {
    let mut mgr = NamespaceManager::new();
    mgr.analyze(&strings(&[
        "type anyhow::Result = core::result::Result",
        "fn foo() -> std::io::Result",
    ]));
    let st = mgr.stats();
    assert_eq!(st.total_unique_names, 1);
    assert_eq!(st.names_with_collisions, 1);
    assert_eq!(st.shortenable_paths, 0);
    assert_eq!(st.unique_namespaces, 2);
    assert_eq!(st.names_with_collisions + st.shortenable_paths, st.total_unique_names);
}

#[test]
fn a_path_inside_a_longer_path_is_not_shortened() {
    let mut mgr = NamespaceManager::new();
    mgr.analyze(&strings(&["a::Foo", "b::a::FooBar", "c::FooBar"]));
    assert_eq!(mgr.shorten_text("b::a::FooBar"), "b::a::FooBar");
    assert_eq!(mgr.shorten_text("a::FooBar"), "a::FooBar");
    assert_eq!(mgr.shorten_text("fn f(x: a::Foo) -> a::Foo::Output"), "fn f(x: Foo) -> Foo::Output");
}
