//! Groups impl blocks of standard library traits for the same type, so that
//! `impl Debug for Foo`, `impl Clone for Foo` become one line
//! `impl Clone + Debug for Foo`.
use vstd::prelude::*;

use crate::namespace_manager::{apply_shortenings, longest_first, NamespaceManager};
use crate::order::lex_lt;
use crate::public_item::{item_text, views, ItemView, PublicItem};
use crate::text::{
    chars_eq, chars_of, join, join_exec, push_all, starts_with, starts_with_exec, string_of, trim, trim_exec,
};
use crate::tokens::{
    is_keyword, is_keyword_exec, is_symbol, is_symbol_exec, token_text, Token,
};

verus! {

// ---------------------------------------------------------------------------
// Reading an impl block from its tokens
// ---------------------------------------------------------------------------
/// `impl`
pub open spec fn kw_impl() -> Seq<char> {
    seq!['i', 'm', 'p', 'l']
}

/// `for`
pub open spec fn kw_for() -> Seq<char> {
    seq!['f', 'o', 'r']
}

/// `where`
pub open spec fn kw_where() -> Seq<char> {
    seq!['w', 'h', 'e', 'r', 'e']
}

/// The first index at or after `i` of a token that is the keyword `w`.
pub open spec fn first_keyword_from(ts: Seq<Token>, w: Seq<char>, i: int) -> Option<int>
    decreases ts.len() - i,
{
    if i < 0 || i >= ts.len() {
        None
    } else if is_keyword(ts[i], w) {
        Some(i)
    } else {
        first_keyword_from(ts, w, i + 1)
    }
}

/// The text of the trait part of an impl header: the token texts, without
/// whitespace, up to a `where` keyword or a `<` symbol.
pub open spec fn trait_text(ts: Seq<Token>) -> Seq<char>
    decreases ts.len(),
{
    if ts.len() == 0 {
        seq![]
    } else if ts[0] is Whitespace {
        trait_text(ts.drop_first())
    } else if is_keyword(ts[0], kw_where()) || is_symbol(ts[0], seq!['<']) {
        seq![]
    } else {
        token_text(ts[0]) + trait_text(ts.drop_first())
    }
}

/// The tokens after the `>` that closes a generic list open to `depth`
/// (empty when it never closes).
pub open spec fn after_close(ts: Seq<Token>, depth: int) -> Seq<Token>
    decreases ts.len(),
{
    if ts.len() == 0 {
        ts
    } else if is_symbol(ts[0], seq!['<']) {
        after_close(ts.drop_first(), depth + 1)
    } else if is_symbol(ts[0], seq!['>']) {
        if depth <= 1 {
            ts.drop_first()
        } else {
            after_close(ts.drop_first(), depth - 1)
        }
    } else {
        after_close(ts.drop_first(), depth)
    }
}

/// The trait tokens without a leading generic list `<...>` of the impl
/// (after leading whitespace); the tokens themselves when there is none.
pub open spec fn skip_impl_generics(ts: Seq<Token>) -> Seq<Token>
    decreases ts.len(),
{
    if ts.len() == 0 {
        ts
    } else if ts[0] is Whitespace {
        skip_impl_generics(ts.drop_first())
    } else if is_symbol(ts[0], seq!['<']) {
        after_close(ts.drop_first(), 1)
    } else {
        ts
    }
}

/// The trait name of an impl header's trait tokens: the impl's own generic
/// list skipped, then the token texts up to `where` or `<`, trimmed.
pub open spec fn trait_name_of(ts: Seq<Token>) -> Seq<char> {
    trim(trait_text(skip_impl_generics(ts)))
}

/// `i32::saturating_sub(d, 1)`.
pub open spec fn dec_depth(d: int) -> int {
    if d > i32::MIN {
        d - 1
    } else {
        d
    }
}

/// The text of the type part of an impl header, given the depth of generic
/// brackets open before it: token texts up to a `where` at depth 0, each
/// whitespace token as one space.
pub open spec fn type_text(ts: Seq<Token>, depth: int) -> Seq<char>
    decreases ts.len(),
{
    if ts.len() == 0 {
        seq![]
    } else if is_keyword(ts[0], kw_where()) && depth == 0 {
        seq![]
    } else if is_symbol(ts[0], seq!['<']) {
        seq!['<'] + type_text(ts.drop_first(), depth + 1)
    } else if is_symbol(ts[0], seq!['>']) {
        seq!['>'] + type_text(ts.drop_first(), dec_depth(depth))
    } else if ts[0] is Whitespace {
        seq![' '] + type_text(ts.drop_first(), depth)
    } else {
        token_text(ts[0]) + type_text(ts.drop_first(), depth)
    }
}

/// The type an impl block is for, from the tokens after `for` (or after
/// `impl` for an inherent impl), trimmed.
pub open spec fn for_type_of(ts: Seq<Token>) -> Seq<char> {
    trim(type_text(ts, 0))
}

/// The name starts with `std::`, `core::` or `alloc::`.
pub open spec fn is_std_path(name: Seq<char>) -> bool {
    ||| starts_with(name, seq!['s', 't', 'd', ':', ':'])
    ||| starts_with(name, seq!['c', 'o', 'r', 'e', ':', ':'])
    ||| starts_with(name, seq!['a', 'l', 'l', 'o', 'c', ':', ':'])
}

/// What is read from an impl block.
#[derive(Debug, Clone, PartialEq, Eq, Hash)]
pub struct ImplInfo {
    /// The trait being implemented, if any, e.g. `core::fmt::Debug`.
    pub trait_name: Option<String>,
    /// The type being implemented for, e.g. `Foo` or `Vec<T>`.
    pub for_type: String,
    /// Whether the trait is from the standard library.
    pub is_std_trait: bool,
}

/// What is read from an impl block, as character sequences.
pub struct ImplInfoView {
    pub trait_name: Option<Seq<char>>,
    pub for_type: Seq<char>,
    pub is_std_trait: bool,
}

impl View for ImplInfo {
    type V = ImplInfoView;

    open spec fn view(&self) -> ImplInfoView {
        ImplInfoView {
            trait_name: match self.trait_name {
                Some(t) => Some(t@),
                None => None,
            },
            for_type: self.for_type@,
            is_std_trait: self.is_std_trait,
        }
    }
}

/// What the tokens say of an impl block: nothing if there is no `impl`
/// keyword; a trait impl if a `for` keyword follows it; else an inherent impl.
pub open spec fn parse_impl(ts: Seq<Token>) -> Option<ImplInfoView> {
    match first_keyword_from(ts, kw_impl(), 0) {
        None => None,
        Some(i) => match first_keyword_from(ts, kw_for(), i) {
            Some(f) => {
                let t = trait_name_of(ts.subrange(i + 1, f));
                Some(
                    ImplInfoView {
                        trait_name: Some(t),
                        for_type: for_type_of(ts.skip(f + 1)),
                        is_std_trait: is_std_path(t),
                    },
                )
            },
            None => Some(
                ImplInfoView {
                    trait_name: None,
                    for_type: for_type_of(ts.skip(i + 1)),
                    is_std_trait: false,
                },
            ),
        },
    }
}

/// The index of the first token at or after `from` that is the keyword `word`.
fn find_keyword(tokens: &[Token], word: &[char], from: usize) -> (r: Option<usize>)
    ensures
        r matches Some(i) ==> first_keyword_from(tokens@, word@, from as int) == Some(i as int),
        r is None ==> first_keyword_from(tokens@, word@, from as int) is None,
{
    let mut i = from;
    while i < tokens.len()
        invariant
            from <= i,
            first_keyword_from(tokens@, word@, from as int) == first_keyword_from(
                tokens@,
                word@,
                i as int,
            ),
        decreases tokens@.len() - i,
    {
        if is_keyword_exec(&tokens[i], word) {
            return Some(i);
        }
        i = i + 1;
    }
    None
}

/// Whether the token is whitespace.
fn is_whitespace_token(t: &Token) -> (b: bool)
    ensures
        b == (*t is Whitespace),
{
    match t {
        Token::Whitespace => true,
        _ => false,
    }
}

/// Where the trait tokens begin after the impl's own generic list.
fn impl_generics_end(tokens: &[Token]) -> (r: usize)
    ensures
        r <= tokens@.len(),
        tokens@.skip(r as int) == skip_impl_generics(tokens@),
{
    let lt = vec!['<'];
    let gt = vec!['>'];
    assert(lt@ =~= seq!['<']);
    assert(gt@ =~= seq!['>']);
    let mut j: usize = 0;
    assert(tokens@.skip(0) =~= tokens@);
    while j < tokens.len() && is_whitespace_token(&tokens[j])
        invariant
            j <= tokens@.len(),
            skip_impl_generics(tokens@) == skip_impl_generics(tokens@.skip(j as int)),
        decreases tokens@.len() - j,
    {
        assert(tokens@.skip(j as int)[0] == tokens@[j as int]);
        assert(tokens@.skip(j as int).drop_first() =~= tokens@.skip(j + 1));
        j = j + 1;
    }
    if j >= tokens.len() || !is_symbol_exec(&tokens[j], &lt) {
        if j < tokens.len() {
            assert(tokens@.skip(j as int)[0] == tokens@[j as int]);
        } else {
            assert(tokens@.skip(j as int).len() == 0);
        }
        return j;
    }
    assert(tokens@.skip(j as int)[0] == tokens@[j as int]);
    assert(tokens@.skip(j as int).drop_first() =~= tokens@.skip(j + 1));
    assert(is_symbol(tokens@[j as int], seq!['<']));
    assert(!(tokens@.skip(j as int)[0] is Whitespace));
    let mut depth: usize = 1;
    let mut k: usize = j + 1;
    while k < tokens.len()
        invariant
            j < k <= tokens@.len(),
            1 <= depth <= k,
            lt@ == seq!['<'],
            gt@ == seq!['>'],
            skip_impl_generics(tokens@) == after_close(tokens@.skip(k as int), depth as int),
        decreases tokens@.len() - k,
    {
        let ghost rest = tokens@.skip(k as int);
        assert(rest[0] == tokens@[k as int]);
        assert(rest.drop_first() =~= tokens@.skip(k + 1));
        if is_symbol_exec(&tokens[k], &lt) {
            depth = depth + 1;
        } else if is_symbol_exec(&tokens[k], &gt) {
            if depth <= 1 {
                return k + 1;
            }
            depth = depth - 1;
        }
        k = k + 1;
    }
    assert(tokens@.skip(k as int).len() == 0);
    k
}

/// The trait name of an impl header's trait tokens.
pub fn extract_trait_name(tokens: &[Token]) -> (r: String)
    ensures
        r@ == trait_name_of(tokens@),
{
    let mut result: Vec<char> = Vec::new();
    let start = impl_generics_end(tokens);
    let mut i: usize = start;
    let where_kw = vec!['w', 'h', 'e', 'r', 'e'];
    let lt = vec!['<'];
    let ghost body = tokens@.skip(start as int);
    assert(tokens@.skip(i as int) == body);
    assert(result@ + trait_text(body) =~= trait_text(body));
    while i < tokens.len()
        invariant
            start <= i <= tokens@.len(),
            body == tokens@.skip(start as int),
            where_kw@ == kw_where(),
            lt@ == seq!['<'],
            result@ + trait_text(tokens@.skip(i as int)) == trait_text(body),
        ensures
            result@ == trait_text(body),
        decreases tokens@.len() - i,
    {
        let ghost rest = tokens@.skip(i as int);
        assert(rest[0] == tokens@[i as int]);
        assert(rest.drop_first() =~= tokens@.skip(i + 1));
        let t = &tokens[i];
        if let Token::Whitespace = t {
        } else if is_keyword_exec(t, &where_kw) || is_symbol_exec(t, &lt) {
            assert(trait_text(rest) == Seq::<char>::empty());
            assert(result@ + seq![] =~= result@);
            break;
        } else {
            let ghost before = result@;
            push_all(&mut result, &chars_of(t.text()));
            assert(before + (token_text(rest[0]) + trait_text(rest.drop_first())) =~= result@
                + trait_text(rest.drop_first()));
        }
        i = i + 1;
    }
    string_of(&trim_exec(&result))
}

/// The type an impl block is for, from the tokens after `for` (or after
/// `impl`).
pub fn extract_for_type(tokens: &[Token]) -> (r: String)
    requires
        tokens@.len() <= i32::MAX,
    ensures
        r@ == for_type_of(tokens@),
{
    let mut result: Vec<char> = Vec::new();
    let mut depth: i32 = 0;
    let mut i: usize = 0;
    let where_kw = vec!['w', 'h', 'e', 'r', 'e'];
    let lt = vec!['<'];
    let gt = vec!['>'];
    assert(tokens@.skip(0) =~= tokens@);
    while i < tokens.len()
        invariant
            i <= tokens@.len(),
            tokens@.len() <= i32::MAX,
            -(i as int) <= depth <= i,
            where_kw@ == kw_where(),
            lt@ == seq!['<'],
            gt@ == seq!['>'],
            result@ + type_text(tokens@.skip(i as int), depth as int) == type_text(tokens@, 0),
        ensures
            result@ == type_text(tokens@, 0),
        decreases tokens@.len() - i,
    {
        let ghost rest = tokens@.skip(i as int);
        let ghost before = result@;
        let ghost d0 = depth as int;
        assert(rest[0] == tokens@[i as int]);
        assert(rest.drop_first() =~= tokens@.skip(i + 1));
        let t = &tokens[i];
        if is_keyword_exec(t, &where_kw) && depth == 0 {
            assert(type_text(rest, d0) == Seq::<char>::empty());
            assert(result@ + seq![] =~= result@);
            break;
        } else if is_symbol_exec(t, &lt) {
            result.push('<');
            depth = depth + 1;
        } else if is_symbol_exec(t, &gt) {
            result.push('>');
            depth = if depth > i32::MIN { depth - 1 } else { depth };
        } else if let Token::Whitespace = t {
            result.push(' ');
        } else {
            push_all(&mut result, &chars_of(t.text()));
        }
        assert(before + type_text(rest, d0) =~= result@ + type_text(
            rest.drop_first(),
            depth as int,
        ));
        i = i + 1;
    }
    string_of(&trim_exec(&result))
}

/// Whether a trait name starts with `std::`, `core::` or `alloc::`.
pub fn is_std_library_trait(trait_name: &str) -> (b: bool)
    ensures
        b == is_std_path(trait_name@),
{
    let name = chars_of(trait_name);
    starts_with_exec(&name, &['s', 't', 'd', ':', ':']) || starts_with_exec(
        &name,
        &['c', 'o', 'r', 'e', ':', ':'],
    ) || starts_with_exec(&name, &['a', 'l', 'l', 'o', 'c', ':', ':'])
}

/// Reads an impl block: `None` when no token is the keyword `impl`; else
/// the trait (when a `for` keyword follows), the type, and whether the trait
/// is from the standard library.
pub fn parse_impl_block(item: &PublicItem) -> (r: Option<ImplInfo>)
    requires
        item.tokens@.len() <= i32::MAX,
    ensures
        r is None <==> parse_impl(item.tokens@) is None,
        r matches Some(info) ==> parse_impl(item.tokens@) == Some(info@),
{
    let tokens = &item.tokens;
    let impl_kw = vec!['i', 'm', 'p', 'l'];
    let for_kw = vec!['f', 'o', 'r'];
    let impl_pos = match find_keyword(tokens, &impl_kw, 0) {
        Some(p) => p,
        None => {
            return None;
        },
    };
    proof {
        lemma_first_keyword_from(tokens@, kw_impl(), 0);
    }
    match find_keyword(tokens, &for_kw, impl_pos) {
        Some(for_pos) => {
            proof {
                lemma_first_keyword_from(tokens@, kw_for(), impl_pos as int);
            }
            let trait_tokens = slice_of(tokens, impl_pos + 1, for_pos);
            let trait_name = extract_trait_name(&trait_tokens);
            let is_std_trait = is_std_library_trait(trait_name.as_str());
            let rest = slice_of(tokens, for_pos + 1, tokens.len());
            assert(rest@ =~= tokens@.skip(for_pos + 1));
            let for_type = extract_for_type(&rest);
            Some(ImplInfo { trait_name: Some(trait_name), for_type, is_std_trait })
        },
        None => {
            let rest = slice_of(tokens, impl_pos + 1, tokens.len());
            assert(rest@ =~= tokens@.skip(impl_pos + 1));
            let for_type = extract_for_type(&rest);
            Some(ImplInfo { trait_name: None, for_type, is_std_trait: false })
        },
    }
}

/// What `first_keyword_from` finds is the keyword, in range.
proof fn lemma_first_keyword_from(ts: Seq<Token>, w: Seq<char>, i: int)
    ensures
        first_keyword_from(ts, w, i) matches Some(k) ==> i <= k < ts.len() && 0 <= k && is_keyword(
            ts[k],
            w,
        ),
    decreases ts.len() - i,
{
    if 0 <= i < ts.len() && !is_keyword(ts[i], w) {
        lemma_first_keyword_from(ts, w, i + 1);
    }
}

/// Copies of the tokens from index `a` up to, not including, `b`.
fn slice_of(tokens: &Vec<Token>, a: usize, b: usize) -> (v: Vec<Token>)
    requires
        a <= b <= tokens@.len(),
    ensures
        v@ == tokens@.subrange(a as int, b as int),
{
    let mut v: Vec<Token> = Vec::new();
    let mut i = a;
    while i < b
        invariant
            a <= i <= b <= tokens@.len(),
            v@ == tokens@.subrange(a as int, i as int),
        decreases b - i,
    {
        v.push(tokens[i].duplicate());
        i = i + 1;
        assert(v@ =~= tokens@.subrange(a as int, i as int));
    }
    v
}


// ---------------------------------------------------------------------------
// Rendering a group
// ---------------------------------------------------------------------------
/// The trait names of the members that are trait impls, in order.
pub open spec fn member_traits(ms: Seq<ItemView>) -> Seq<Seq<char>>
    decreases ms.len(),
{
    if ms.len() == 0 {
        seq![]
    } else {
        let r = member_traits(ms.drop_last());
        match parse_impl(ms.last().tokens) {
            Some(v) => match v.trait_name {
                Some(t) => r.push(t),
                None => r,
            },
            None => r,
        }
    }
}

/// `impl A + B for T`
pub open spec fn condensed_impl(traits: Seq<Seq<char>>, for_type: Seq<char>) -> Seq<char> {
    seq!['i', 'm', 'p', 'l', ' '] + join(traits, seq![' ', '+', ' ']) + seq![' ', 'f', 'o', 'r', ' ']
        + for_type
}

/// The line for a group before shortening: the first item alone unless the
/// group is of standard library traits with two or more members, in which
/// case the members' traits joined with ` + ` for the first item's type.
pub open spec fn group_text(impl_item: ItemView, ms: Seq<ItemView>, is_std_trait: bool) -> Seq<char> {
    if !is_std_trait || ms.len() <= 1 {
        item_text(impl_item)
    } else {
        condensed_impl(member_traits(ms), parse_impl(impl_item.tokens).unwrap().for_type)
    }
}

/// Every item has few enough tokens to be read as an impl block.
pub open spec fn tokens_bounded(ms: Seq<ItemView>) -> bool {
    forall|i: int| 0 <= i < ms.len() ==> (#[trigger] ms[i]).tokens.len() <= i32::MAX
}

/// Renders a group of impl blocks as one line, with paths shortened.
pub fn render_impl_group(
    impl_item: &PublicItem,
    members: &[PublicItem],
    is_std_trait: bool,
    namespace_mgr: &NamespaceManager,
) -> (r: String)
    requires
        namespace_mgr.wf(),
        impl_item.tokens@.len() <= i32::MAX,
        tokens_bounded(views(members@)),
        is_std_trait && members@.len() > 1 ==> parse_impl(impl_item.tokens@) is Some,
    ensures
        r@ == apply_shortenings(
            group_text(impl_item@, views(members@), is_std_trait),
            longest_first(namespace_mgr.shortened()),
        ),
{
    if !is_std_trait || members.len() <= 1 {
        return namespace_mgr.shorten_text(impl_item.to_string().as_str());
    }
    let ghost ms = views(members@);
    let mut trait_names: Vec<Vec<char>> = Vec::new();
    let mut i: usize = 0;
    while i < members.len()
        invariant
            i <= members@.len(),
            ms == views(members@),
            tokens_bounded(ms),
            trait_names.deep_view() == member_traits(ms.take(i as int)),
        decreases members@.len() - i,
    {
        assert(ms[i as int] == members@[i as int]@);
        assert(ms.take(i + 1).drop_last() =~= ms.take(i as int));
        assert(ms.take(i + 1).last() == members@[i as int]@);
        let ghost before = trait_names.deep_view();
        match parse_impl_block(&members[i]) {
            Some(info) => match info.trait_name {
                Some(t) => {
                    let tc = chars_of(t.as_str());
                    trait_names.push(tc);
                    assert(trait_names.deep_view()[before.len() as int] == t@);
                    assert(trait_names.deep_view() =~= before.push(t@));
                },
                None => {},
            },
            None => {},
        }
        i = i + 1;
    }
    assert(ms.take(members@.len() as int) =~= ms);
    let first = match parse_impl_block(impl_item) {
        Some(info) => info,
        None => {
            assert(false);
            return String::new();
        },
    };
    let mut line: Vec<char> = vec!['i', 'm', 'p', 'l', ' '];
    let joined = join_exec(&trait_names, &[' ', '+', ' ']);
    push_all(&mut line, &joined);
    push_all(&mut line, &[' ', 'f', 'o', 'r', ' ']);
    push_all(&mut line, &chars_of(first.for_type.as_str()));
    assert(line@ =~= group_text(impl_item@, ms, is_std_trait));
    namespace_mgr.shorten_text(string_of(&line).as_str())
}

// ---------------------------------------------------------------------------
// Grouping
// ---------------------------------------------------------------------------
/// The rustdoc data of a crate. The grouping does not read it.
#[verifier::external_type_specification]
#[verifier::external_body]
pub struct ExCrate(rustdoc_types::Crate);

/// Either a single item or a group of impl blocks for one type.
#[derive(Debug)]
pub enum ItemGroup {
    /// A single item that isn't part of a group
    Single(PublicItem),
    /// A group of impl blocks for the same type
    ImplGroup {
        /// The first impl item (used as a template for rendering)
        impl_item: PublicItem,
        /// All impl items in this group (including the first)
        members: Vec<PublicItem>,
        /// Whether all traits in this group are from std library
        is_std_trait: bool,
    },
}

/// What a group is, by the views of its items.
pub enum GroupView {
    Single(ItemView),
    ImplGroup { impl_item: ItemView, members: Seq<ItemView>, is_std_trait: bool },
}

impl View for ItemGroup {
    type V = GroupView;

    open spec fn view(&self) -> GroupView {
        match self {
            ItemGroup::Single(it) => GroupView::Single(it@),
            ItemGroup::ImplGroup { impl_item, members, is_std_trait } => GroupView::ImplGroup {
                impl_item: impl_item@,
                members: views(members@),
                is_std_trait: *is_std_trait,
            },
        }
    }
}

/// The item is a trait impl block.
pub open spec fn is_trait_impl(it: ItemView) -> bool {
    parse_impl(it.tokens) matches Some(v) && v.trait_name is Some
}

/// The type a trait impl block is for.
pub open spec fn impl_key(it: ItemView) -> Seq<char> {
    parse_impl(it.tokens).unwrap().for_type
}

/// The trait of a trait impl block.
pub open spec fn trait_key(it: ItemView) -> Seq<char> {
    parse_impl(it.tokens).unwrap().trait_name.unwrap()
}

/// The types that trait impl blocks are for, each once, in first-seen order.
pub open spec fn group_keys(items: Seq<ItemView>) -> Seq<Seq<char>>
    decreases items.len(),
{
    if items.len() == 0 {
        seq![]
    } else {
        let ks = group_keys(items.drop_last());
        let it = items.last();
        if is_trait_impl(it) && !ks.contains(impl_key(it)) {
            ks.push(impl_key(it))
        } else {
            ks
        }
    }
}

/// The trait impl blocks for type `k`, in order.
pub open spec fn with_key(items: Seq<ItemView>, k: Seq<char>) -> Seq<ItemView>
    decreases items.len(),
{
    if items.len() == 0 {
        seq![]
    } else {
        let r = with_key(items.drop_last(), k);
        let it = items.last();
        if is_trait_impl(it) && impl_key(it) == k {
            r.push(it)
        } else {
            r
        }
    }
}

/// The items that are not trait impl blocks, in order.
pub open spec fn non_trait_items(items: Seq<ItemView>) -> Seq<ItemView>
    decreases items.len(),
{
    if items.len() == 0 {
        seq![]
    } else {
        let r = non_trait_items(items.drop_last());
        if !is_trait_impl(items.last()) {
            r.push(items.last())
        } else {
            r
        }
    }
}

/// The trait impl block implements a standard library trait.
pub open spec fn is_std_impl(it: ItemView) -> bool {
    parse_impl(it.tokens).unwrap().is_std_trait
}

/// The members that implement standard library traits, in order.
pub open spec fn std_members(ms: Seq<ItemView>) -> Seq<ItemView>
    decreases ms.len(),
{
    if ms.len() == 0 {
        seq![]
    } else {
        let r = std_members(ms.drop_last());
        if is_std_impl(ms.last()) {
            r.push(ms.last())
        } else {
            r
        }
    }
}

/// The members that implement other traits, in order.
pub open spec fn other_members(ms: Seq<ItemView>) -> Seq<ItemView>
    decreases ms.len(),
{
    if ms.len() == 0 {
        seq![]
    } else {
        let r = other_members(ms.drop_last());
        if !is_std_impl(ms.last()) {
            r.push(ms.last())
        } else {
            r
        }
    }
}

/// What a group of items is ordered by.
pub enum OrderKey {
    /// The name of the implemented trait.
    TraitName,
    /// The rendered text of the item.
    Text,
}

/// The value an item is ordered by.
pub open spec fn order_key(k: OrderKey, it: ItemView) -> Seq<char> {
    match k {
        OrderKey::TraitName => trait_key(it),
        OrderKey::Text => item_text(it),
    }
}

/// `s` with `x` inserted after the last element whose key does not come
/// after that of `x`.
pub open spec fn insert_ordered(s: Seq<ItemView>, x: ItemView, k: OrderKey) -> Seq<ItemView>
    decreases s.len(),
{
    if s.len() == 0 {
        seq![x]
    } else if lex_lt(order_key(k, x), order_key(k, s.last())) {
        insert_ordered(s.drop_last(), x, k).push(s.last())
    } else {
        s.push(x)
    }
}

/// The items ordered by key, items with equal keys in their given order (a
/// stable sort).
pub open spec fn sort_ordered(s: Seq<ItemView>, k: OrderKey) -> Seq<ItemView>
    decreases s.len(),
{
    if s.len() == 0 {
        seq![]
    } else {
        insert_ordered(sort_ordered(s.drop_last(), k), s.last(), k)
    }
}

/// The items ordered by trait name, stably.
pub open spec fn sort_by_trait(s: Seq<ItemView>) -> Seq<ItemView> {
    sort_ordered(s, OrderKey::TraitName)
}

/// The groups for the trait impl blocks of one type: when two or more
/// implement standard library traits, those become one condensed group,
/// ordered by trait, followed by each block of another trait on its own;
/// else each block on its own.
pub open spec fn groups_of(ms: Seq<ItemView>) -> Seq<GroupView> {
    if std_members(ms).len() > 1 {
        let s = sort_by_trait(std_members(ms));
        seq![GroupView::ImplGroup { impl_item: s[0], members: s, is_std_trait: true }]
            + other_members(ms).map_values(|m: ItemView| GroupView::Single(m))
    } else {
        ms.map_values(|m: ItemView| GroupView::Single(m))
    }
}

/// The groups for the types `ks`, type after type.
pub open spec fn keyed_groups(items: Seq<ItemView>, ks: Seq<Seq<char>>) -> Seq<GroupView>
    decreases ks.len(),
{
    if ks.len() == 0 {
        seq![]
    } else {
        keyed_groups(items, ks.drop_last()) + groups_of(with_key(items, ks.last()))
    }
}

/// The grouping of a listing: the groups of each type that trait impl blocks
/// are for (types in first-seen order), then every other item on its own.
pub open spec fn grouped(items: Seq<ItemView>) -> Seq<GroupView> {
    keyed_groups(items, group_keys(items)) + non_trait_items(items).map_values(
        |m: ItemView| GroupView::Single(m),
    )
}

proof fn lemma_insert_ordered(s: Seq<ItemView>, x: ItemView, j: int, k: OrderKey)
    requires
        0 <= j <= s.len(),
        forall|m: int| j <= m < s.len() ==> lex_lt(order_key(k, x), order_key(k, #[trigger] s[m])),
        j == 0 || !lex_lt(order_key(k, x), order_key(k, s[j - 1])),
    ensures
        insert_ordered(s, x, k) == s.insert(j, x),
    decreases s.len(),
{
    if s.len() == j {
        assert(s.insert(j, x) =~= s.push(x));
        if s.len() == 0 {
            assert(s.insert(j, x) =~= seq![x]);
        }
    } else {
        assert(lex_lt(order_key(k, x), order_key(k, s[s.len() - 1])));
        lemma_insert_ordered(s.drop_last(), x, j, k);
        assert(s.drop_last().insert(j, x).push(s.last()) =~= s.insert(j, x));
    }
}

/// The items ordered by key, stably; `keys[i]` is the key of `ms[i]`.
pub(crate) fn sort_group(ms: Vec<PublicItem>, keys: Vec<Vec<char>>, Ghost(k): Ghost<OrderKey>) -> (r: Vec<PublicItem>)
    requires
        keys@.len() == ms@.len(),
        forall|i: int| 0 <= i < ms@.len() ==> #[trigger] keys@[i]@ == order_key(k, ms@[i]@),
    ensures
        views(r@) == sort_ordered(views(ms@), k),
{
    let ghost orig = views(ms@);
    let ghost orig_items = ms@;
    let mut sorted: Vec<PublicItem> = Vec::new();
    let mut sorted_keys: Vec<Vec<char>> = Vec::new();
    let mut i: usize = 0;
    for item in it: ms
        invariant
            i == it.index(),
            it.seq() == orig_items,
            orig == views(orig_items),
            keys@.len() == orig.len(),
            forall|q: int| 0 <= q < orig.len() ==> #[trigger] keys@[q]@ == order_key(k, orig[q]),
            sorted_keys@.len() == sorted@.len(),
            forall|q: int| 0 <= q < sorted@.len() ==> #[trigger] sorted_keys@[q]@ == order_key(k, sorted@[q]@),
            views(sorted@) == sort_ordered(orig.take(i as int), k),
    {
        assert(orig[i as int] == item@);
        let n = keys.len();
        assert(i < n);
        let key = &keys[i];
        let mut j: usize = sorted.len();
        while j > 0 && crate::order::lex_less(key, &sorted_keys[j - 1])
            invariant
                j <= sorted@.len(),
                sorted_keys@.len() == sorted@.len(),
                forall|q: int| 0 <= q < sorted@.len() ==> #[trigger] sorted_keys@[q]@ == order_key(k, sorted@[q]@),
                key@ == order_key(k, item@),
                forall|m: int| j <= m < sorted@.len() ==> lex_lt(order_key(k, item@), order_key(k, #[trigger] views(sorted@)[m])),
            decreases j,
        {
            assert(views(sorted@)[j - 1] == sorted@[j - 1]@);
            j = j - 1;
        }
        proof {
            if j > 0 {
                assert(views(sorted@)[j - 1] == sorted@[j - 1]@);
            }
            lemma_insert_ordered(views(sorted@), item@, j as int, k);
            assert(orig.take(i + 1).drop_last() =~= orig.take(i as int));
            assert(orig.take(i + 1).last() == item@);
        }
        let ghost before = sorted@;
        let kc = crate::text::copy_chars(key);
        sorted.insert(j, item);
        sorted_keys.insert(j, kc);
        assert(views(sorted@) =~= views(before).insert(j as int, item@));
        assert forall|q: int| 0 <= q < sorted@.len() implies #[trigger] sorted_keys@[q]@ == order_key(k, sorted@[q]@) by {
            if q < j {
                assert(sorted@[q] == before[q]);
            } else if q > j {
                assert(sorted@[q] == before[q - 1]);
            }
        }
        i = i + 1;
    }
    assert(orig.take(orig.len() as int) =~= orig);
    sorted
}

proof fn lemma_with_key_empty(items: Seq<ItemView>, k: Seq<char>)
    requires
        !group_keys(items).contains(k),
    ensures
        with_key(items, k) == Seq::<ItemView>::empty(),
    decreases items.len(),
{
    if items.len() > 0 {
        let ks = group_keys(items.drop_last());
        if ks.contains(k) {
            let q = choose|q: int| 0 <= q < ks.len() && ks[q] == k;
            assert(group_keys(items)[q] == k);
            assert(group_keys(items).contains(k));
        }
        let it = items.last();
        if is_trait_impl(it) && impl_key(it) == k {
            assert(group_keys(items)[ks.len() as int] == k);
            assert(group_keys(items).contains(k));
        }
        lemma_with_key_empty(items.drop_last(), k);
    }
}

pub proof fn lemma_sort_len(s: Seq<ItemView>, k: OrderKey)
    ensures
        sort_ordered(s, k).len() == s.len(),
    decreases s.len(),
{
    if s.len() > 0 {
        lemma_sort_len(s.drop_last(), k);
        lemma_insert_len(sort_ordered(s.drop_last(), k), s.last(), k);
    }
}

proof fn lemma_insert_len(s: Seq<ItemView>, x: ItemView, k: OrderKey)
    ensures
        insert_ordered(s, x, k).len() == s.len() + 1,
    decreases s.len(),
{
    if s.len() > 0 {
        lemma_insert_len(s.drop_last(), x, k);
    }
}

proof fn lemma_group_keys_distinct(items: Seq<ItemView>)
    ensures
        group_keys(items).no_duplicates(),
    decreases items.len(),
{
    if items.len() > 0 {
        lemma_group_keys_distinct(items.drop_last());
    }
}

/// The groups of one type's trait impl blocks, as `groups_of` says; `ts[i]`
/// is the trait of `ms[i]` and `fl[i]` whether it is from the standard library.
fn type_groups(ms: Vec<PublicItem>, ts: Vec<Vec<char>>, fl: Vec<bool>) -> (r: Vec<ItemGroup>)
    requires
        ts@.len() == ms@.len(),
        fl@.len() == ms@.len(),
        forall|i: int| 0 <= i < ms@.len() ==> (#[trigger] ts@[i])@ == trait_key(ms@[i]@),
        forall|i: int| 0 <= i < ms@.len() ==> (#[trigger] fl@[i]) == is_std_impl(ms@[i]@),
    ensures
        r@.map_values(|x: ItemGroup| x@) == groups_of(views(ms@)),
{
    let ghost w = views(ms@);
    let ghost orig = ms@;
    let mut nstd: usize = 0;
    let mut q: usize = 0;
    while q < fl.len()
        invariant
            q <= w.len(),
            fl@.len() == w.len(),
            w == views(orig),
            forall|i: int| 0 <= i < w.len() ==> (#[trigger] fl@[i]) == is_std_impl(orig[i]@),
            nstd == std_members(w.take(q as int)).len(),
            nstd <= q,
        decreases w.len() - q,
    {
        assert(w.take(q + 1).drop_last() =~= w.take(q as int));
        assert(w.take(q + 1).last() == w[q as int]);
        assert(w[q as int] == orig[q as int]@);
        if fl[q] {
            nstd = nstd + 1;
        }
        q = q + 1;
    }
    assert(w.take(w.len() as int) =~= w);
    let mut out: Vec<ItemGroup> = Vec::new();
    if nstd > 1 {
        let mut sm: Vec<PublicItem> = Vec::new();
        let mut st: Vec<Vec<char>> = Vec::new();
        let mut om: Vec<PublicItem> = Vec::new();
        let mut k: usize = 0;
        for m in mit: ms
            invariant
                k == mit.index(),
                mit.seq() == orig,
                w == views(orig),
                ts@.len() == w.len(),
                fl@.len() == w.len(),
                forall|i: int| 0 <= i < w.len() ==> (#[trigger] ts@[i])@ == trait_key(orig[i]@),
                forall|i: int| 0 <= i < w.len() ==> (#[trigger] fl@[i]) == is_std_impl(orig[i]@),
                views(sm@) == std_members(w.take(k as int)),
                views(om@) == other_members(w.take(k as int)),
                st@.len() == sm@.len(),
                forall|i: int| 0 <= i < sm@.len() ==> (#[trigger] st@[i])@ == trait_key(sm@[i]@),
        {
            assert(w.take(k + 1).drop_last() =~= w.take(k as int));
            assert(w.take(k + 1).last() == w[k as int]);
            assert(w[k as int] == m@);
            let n = fl.len();
            assert(k < n);
            if fl[k] {
                let ghost bs = sm@;
                let ghost bt = st@;
                let t = crate::text::copy_chars(&ts[k]);
                sm.push(m);
                st.push(t);
                assert(views(sm@) =~= views(bs).push(w[k as int]));
                assert forall|i: int| 0 <= i < sm@.len() implies (#[trigger] st@[i])@ == trait_key(sm@[i]@) by {
                    if i < bs.len() {
                        assert(st@[i] == bt[i] && sm@[i] == bs[i]);
                    }
                }
            } else {
                let ghost bo = om@;
                om.push(m);
                assert(views(om@) =~= views(bo).push(w[k as int]));
            }
            k = k + 1;
        }
        let ghost sv = std_members(w);
        let sorted = sort_group(sm, st, Ghost(OrderKey::TraitName));
        proof {
            lemma_sort_len(sv, OrderKey::TraitName);
        }
        assert(views(sorted@)[0] == sorted@[0]@);
        let first = sorted[0].duplicate();
        out.push(ItemGroup::ImplGroup { impl_item: first, members: sorted, is_std_trait: true });
        let ghost head = out@.map_values(|x: ItemGroup| x@);
        let ghost ov = other_members(w);
        let ghost others = om@;
        for m in oit: om
            invariant
                oit.seq() == others,
                views(others) == ov,
                out@.map_values(|x: ItemGroup| x@) == head + ov.take(oit.index() as int).map_values(
                    |v: ItemView| GroupView::Single(v),
                ),
        {
            let ghost j = oit.index() as int;
            assert(ov[j] == m@);
            let ghost ob = out@.map_values(|x: ItemGroup| x@);
            out.push(ItemGroup::Single(m));
            proof {
                assert(out@.map_values(|x: ItemGroup| x@) =~= ob.push(GroupView::Single(ov[j])));
                assert(ov.take(j + 1) =~= ov.take(j).push(ov[j]));
                assert(ov.take(j + 1).map_values(|v: ItemView| GroupView::Single(v)) =~= ov.take(j).map_values(
                    |v: ItemView| GroupView::Single(v),
                ).push(GroupView::Single(ov[j])));
            }
        }
        assert(ov.take(ov.len() as int) =~= ov);
        assert(out@.map_values(|x: ItemGroup| x@) =~= groups_of(w));
    } else {
        for m in mit: ms
            invariant
                mit.seq() == orig,
                views(orig) == w,
                out@.map_values(|x: ItemGroup| x@) == w.take(mit.index() as int).map_values(
                    |v: ItemView| GroupView::Single(v),
                ),
        {
            let ghost j = mit.index() as int;
            assert(w[j] == m@);
            let ghost ob = out@.map_values(|x: ItemGroup| x@);
            out.push(ItemGroup::Single(m));
            proof {
                assert(out@.map_values(|x: ItemGroup| x@) =~= ob.push(GroupView::Single(w[j])));
                assert(w.take(j + 1) =~= w.take(j).push(w[j]));
                assert(w.take(j + 1).map_values(|v: ItemView| GroupView::Single(v)) =~= w.take(j).map_values(
                    |v: ItemView| GroupView::Single(v),
                ).push(GroupView::Single(w[j])));
            }
        }
        assert(w.take(w.len() as int) =~= w);
    }
    out
}

/// Groups the trait impl blocks by the type they are for; a type's blocks
/// of standard library traits become one group, ordered by trait, when there
/// are two or more, and its blocks of other traits stay on their own after
/// it. Every other item stays on its own, after the groups. Types come in the
/// order first seen.
pub fn group_impl_items(items: Vec<PublicItem>, _crate_data: &rustdoc_types::Crate) -> (groups: Vec<ItemGroup>)
    requires
        tokens_bounded(views(items@)),
    ensures
        groups@.map_values(|g: ItemGroup| g@) == grouped(views(items@)),
{
    let ghost vs = views(items@);
    let ghost orig_items = items@;
    // What each item is, read before the items are moved.
    let mut infos: Vec<Option<ImplInfo>> = Vec::new();
    let mut p: usize = 0;
    while p < items.len()
        invariant
            p <= items@.len(),
            vs == views(items@),
            tokens_bounded(vs),
            infos@.len() == p,
            forall|q: int| 0 <= q < p ==> match #[trigger] infos@[q] {
                Some(info) => parse_impl(vs[q].tokens) == Some(info@),
                None => parse_impl(vs[q].tokens) is None,
            },
        decreases items@.len() - p,
    {
        assert(vs[p as int] == items@[p as int]@);
        infos.push(parse_impl_block(&items[p]));
        p = p + 1;
    }
    let mut keys: Vec<Vec<char>> = Vec::new();
    let mut members: Vec<Vec<PublicItem>> = Vec::new();
    let mut traits: Vec<Vec<Vec<char>>> = Vec::new();
    let mut flags: Vec<Vec<bool>> = Vec::new();
    let mut others: Vec<PublicItem> = Vec::new();
    let mut i: usize = 0;
    for item in it: items
        invariant
            i == it.index(),
            it.seq() == orig_items,
            vs == views(orig_items),
            infos@.len() == vs.len(),
            forall|q: int| 0 <= q < vs.len() ==> match #[trigger] infos@[q] {
                Some(info) => parse_impl(vs[q].tokens) == Some(info@),
                None => parse_impl(vs[q].tokens) is None,
            },
            keys.deep_view() == group_keys(vs.take(i as int)),
            members@.len() == keys@.len(),
            traits@.len() == keys@.len(),
            flags@.len() == keys@.len(),
            forall|g: int| 0 <= g < keys@.len() ==> views(#[trigger] members@[g]@) == with_key(vs.take(i as int), keys.deep_view()[g]),
            forall|g: int| 0 <= g < keys@.len() ==> (#[trigger] traits@[g])@.len() == members@[g]@.len(),
            forall|g: int, q: int| 0 <= g < keys@.len() && 0 <= q < members@[g]@.len() ==> (#[trigger] traits@[g]@[q])@ == trait_key(members@[g]@[q]@),
            forall|g: int| 0 <= g < keys@.len() ==> (#[trigger] flags@[g])@.len() == members@[g]@.len(),
            forall|g: int, q: int| 0 <= g < keys@.len() && 0 <= q < members@[g]@.len() ==> (#[trigger] flags@[g]@[q]) == is_std_impl(members@[g]@[q]@),
            views(others@) == non_trait_items(vs.take(i as int)),
    {
        let ghost prev = vs.take(i as int);
        let ghost next = vs.take(i + 1);
        assert(next.drop_last() =~= prev);
        assert(next.last() == item@);
        assert(vs[i as int] == item@);
        let n = infos.len();
        assert(i < n);
        let ghost old_keys = keys.deep_view();
        let ghost old_members = members@;
        let ghost old_traits = traits@;
        let ghost old_flags = flags@;
        proof {
            lemma_group_keys_distinct(prev);
        }
        let placement: Option<(Vec<char>, Vec<char>, bool)> = match &infos[i] {
            Some(info) => match &info.trait_name {
                Some(tn) => Some((chars_of(info.for_type.as_str()), chars_of(tn.as_str()), info.is_std_trait)),
                None => None,
            },
            None => None,
        };
        match placement {
            Some((key, tc, is_std)) => {
                assert(is_trait_impl(item@));
                assert(key@ == impl_key(item@));
                assert(tc@ == trait_key(item@));
                assert(is_std == is_std_impl(item@));
            match index_of(&keys, &key) {
                Some(g) => {
                    assert(keys.deep_view()[g as int] == key@);
                    members[g].push(item);
                    traits[g].push(tc);
                    flags[g].push(is_std);
                    proof {
                        assert(group_keys(next) == old_keys);
                        assert forall|h: int| 0 <= h < keys@.len() implies views(#[trigger] members@[h]@) == with_key(next, keys.deep_view()[h]) by {
                            if h != g {
                                assert(old_keys[h] != old_keys[g as int]);
                                assert(members@[h] == old_members[h]);
                            } else {
                                assert(views(members@[h]@) =~= views(old_members[h]@).push(item@));
                            }
                        }
                        assert forall|h: int, q: int| 0 <= h < keys@.len() && 0 <= q < members@[h]@.len() implies (#[trigger] flags@[h]@[q]) == is_std_impl(members@[h]@[q]@) by {
                            if h != g {
                                assert(members@[h] == old_members[h]);
                                assert(flags@[h] == old_flags[h]);
                            } else if q < old_members[h]@.len() {
                                assert(members@[h]@[q] == old_members[h]@[q]);
                                assert(flags@[h]@[q] == old_flags[h]@[q]);
                            }
                        }
                        assert forall|h: int| 0 <= h < keys@.len() implies (#[trigger] flags@[h])@.len() == members@[h]@.len() by {
                            if h != g {
                                assert(members@[h] == old_members[h]);
                                assert(flags@[h] == old_flags[h]);
                            }
                        }
                        assert forall|h: int, q: int| 0 <= h < keys@.len() && 0 <= q < members@[h]@.len() implies (#[trigger] traits@[h]@[q])@ == trait_key(members@[h]@[q]@) by {
                            if h != g {
                                assert(members@[h] == old_members[h]);
                                assert(traits@[h] == old_traits[h]);
                            } else if q < old_members[h]@.len() {
                                assert(members@[h]@[q] == old_members[h]@[q]);
                                assert(traits@[h]@[q] == old_traits[h]@[q]);
                            }
                        }
                        assert forall|h: int| 0 <= h < keys@.len() implies (#[trigger] traits@[h])@.len() == members@[h]@.len() by {
                            if h != g {
                                assert(members@[h] == old_members[h]);
                                assert(traits@[h] == old_traits[h]);
                            }
                        }
                    }
                },
                None => {
                    let ghost kv = key@;
                    keys.push(key);
                    members.push(vec![item]);
                    traits.push(vec![tc]);
                    flags.push(vec![is_std]);
                    proof {
                        assert(keys.deep_view()[old_keys.len() as int] == kv);
                        assert(keys.deep_view() =~= old_keys.push(kv));
                        lemma_with_key_empty(prev, kv);
                        assert forall|h: int| 0 <= h < keys@.len() implies views(#[trigger] members@[h]@) == with_key(next, keys.deep_view()[h]) by {
                            if h < old_keys.len() {
                                assert(old_keys[h] != kv);
                                assert(members@[h] == old_members[h]);
                            } else {
                                assert(views(members@[h]@) =~= seq![item@]);
                                assert(with_key(next, kv) =~= seq![item@]);
                            }
                        }
                        assert forall|h: int, q: int| 0 <= h < keys@.len() && 0 <= q < members@[h]@.len() implies (#[trigger] flags@[h]@[q]) == is_std_impl(members@[h]@[q]@) by {
                            if h < old_keys.len() {
                                assert(members@[h] == old_members[h]);
                                assert(flags@[h] == old_flags[h]);
                            }
                        }
                        assert forall|h: int| 0 <= h < keys@.len() implies (#[trigger] flags@[h])@.len() == members@[h]@.len() by {
                            if h < old_keys.len() {
                                assert(members@[h] == old_members[h]);
                                assert(flags@[h] == old_flags[h]);
                            }
                        }
                        assert forall|h: int, q: int| 0 <= h < keys@.len() && 0 <= q < members@[h]@.len() implies (#[trigger] traits@[h]@[q])@ == trait_key(members@[h]@[q]@) by {
                            if h < old_keys.len() {
                                assert(members@[h] == old_members[h]);
                                assert(traits@[h] == old_traits[h]);
                            }
                        }
                        assert forall|h: int| 0 <= h < keys@.len() implies (#[trigger] traits@[h])@.len() == members@[h]@.len() by {
                            if h < old_keys.len() {
                                assert(members@[h] == old_members[h]);
                                assert(traits@[h] == old_traits[h]);
                            }
                        }
                    }
                },
            }
            },
            None => {
                assert(!is_trait_impl(item@));
                let ghost ob = others@;
                others.push(item);
                assert(views(others@) =~= views(ob).push(item@));
            assert(group_keys(next) == group_keys(prev));
            assert forall|h: int| 0 <= h < keys@.len() implies with_key(next, keys.deep_view()[h]) == with_key(prev, keys.deep_view()[h]) by {}
            },
        }
        i = i + 1;
    }
    assert(vs.take(vs.len() as int) =~= vs);
    // Emit the groups, type after type, then the other items.
    let ghost ks = keys.deep_view();
    let mut out: Vec<ItemGroup> = Vec::new();
    let mut g: usize = 0;
    while g < keys.len()
        invariant
            ks == keys.deep_view(),
            ks == group_keys(vs),
            g <= ks.len(),
            members@.len() == ks.len(),
            traits@.len() == ks.len(),
            flags@.len() == ks.len(),
            forall|h: int| g <= h < ks.len() ==> views(#[trigger] members@[h]@) == with_key(vs, ks[h]),
            forall|h: int| g <= h < ks.len() ==> (#[trigger] traits@[h])@.len() == members@[h]@.len(),
            forall|h: int, q: int| g <= h < ks.len() && 0 <= q < members@[h]@.len() ==> (#[trigger] traits@[h]@[q])@ == trait_key(members@[h]@[q]@),
            forall|h: int| g <= h < ks.len() ==> (#[trigger] flags@[h])@.len() == members@[h]@.len(),
            forall|h: int, q: int| g <= h < ks.len() && 0 <= q < members@[h]@.len() ==> (#[trigger] flags@[h]@[q]) == is_std_impl(members@[h]@[q]@),
            out@.map_values(|x: ItemGroup| x@) == keyed_groups(vs, ks.take(g as int)),
        decreases ks.len() - g,
    {
        assert(ks.take(g + 1).drop_last() =~= ks.take(g as int));
        assert(ks.take(g + 1).last() == ks[g as int]);
        let ghost old_members = members@;
        let ghost old_traits = traits@;
        let ghost old_flags = flags@;
        let ghost w = with_key(vs, ks[g as int]);
        let mut ms: Vec<PublicItem> = Vec::new();
        std::mem::swap(&mut ms, &mut members[g]);
        let mut ts: Vec<Vec<char>> = Vec::new();
        std::mem::swap(&mut ts, &mut traits[g]);
        assert(views(ms@) == w);
        let mut fl: Vec<bool> = Vec::new();
        std::mem::swap(&mut fl, &mut flags[g]);
        let ghost before = out@.map_values(|x: ItemGroup| x@);
        let mut part = type_groups(ms, ts, fl);
        let ghost pv = part@.map_values(|x: ItemGroup| x@);
        out.append(&mut part);
        assert(out@.map_values(|x: ItemGroup| x@) =~= before + pv);
        proof {
            assert forall|h: int| g + 1 <= h < ks.len() implies views(#[trigger] members@[h]@) == with_key(vs, ks[h]) by {
                assert(members@[h] == old_members[h]);
            }
            assert forall|h: int| g + 1 <= h < ks.len() implies (#[trigger] traits@[h])@.len() == members@[h]@.len() by {
                assert(members@[h] == old_members[h]);
                assert(traits@[h] == old_traits[h]);
            }
            assert forall|h: int, q: int| g + 1 <= h < ks.len() && 0 <= q < members@[h]@.len() implies (#[trigger] traits@[h]@[q])@ == trait_key(members@[h]@[q]@) by {
                assert(members@[h] == old_members[h]);
                assert(traits@[h] == old_traits[h]);
            }
            assert forall|h: int| g + 1 <= h < ks.len() implies (#[trigger] flags@[h])@.len() == members@[h]@.len() by {
                assert(members@[h] == old_members[h]);
                assert(flags@[h] == old_flags[h]);
            }
            assert forall|h: int, q: int| g + 1 <= h < ks.len() && 0 <= q < members@[h]@.len() implies (#[trigger] flags@[h]@[q]) == is_std_impl(members@[h]@[q]@) by {
                assert(members@[h] == old_members[h]);
                assert(flags@[h] == old_flags[h]);
            }
        }
        g = g + 1;
    }
    assert(ks.take(ks.len() as int) =~= ks);
    let ghost before = out@.map_values(|x: ItemGroup| x@);
    let ghost rest = others@;
    let ghost nt = non_trait_items(vs);
    for m in oit: others
        invariant
            oit.seq() == rest,
            views(rest) == nt,
            out@.map_values(|x: ItemGroup| x@) == before + nt.take(oit.index() as int).map_values(|v: ItemView| GroupView::Single(v)),
    {
        let ghost k = oit.index() as int;
        assert(nt[k] == m@);
        let ghost ob = out@.map_values(|x: ItemGroup| x@);
        out.push(ItemGroup::Single(m));
        proof {
            assert(out@.map_values(|x: ItemGroup| x@) =~= ob.push(GroupView::Single(nt[k])));
            assert(nt.take(k + 1) =~= nt.take(k).push(nt[k]));
            assert(nt.take(k + 1).map_values(|v: ItemView| GroupView::Single(v)) =~= nt.take(k).map_values(|v: ItemView| GroupView::Single(v)).push(GroupView::Single(nt[k])));
        }
    }
    assert(nt.take(nt.len() as int) =~= nt);
    out
}

/// The position of `x` among the keys, if it is there.
fn index_of(keys: &Vec<Vec<char>>, x: &[char]) -> (r: Option<usize>)
    ensures
        r matches Some(i) ==> i < keys@.len() && keys.deep_view()[i as int] == x@,
        r is None ==> !keys.deep_view().contains(x@),
{
    let mut i: usize = 0;
    while i < keys.len()
        invariant
            i <= keys@.len(),
            forall|k: int| 0 <= k < i ==> keys.deep_view()[k] != x@,
        decreases keys@.len() - i,
    {
        assert(keys.deep_view()[i as int] == keys@[i as int]@);
        if chars_eq(&keys[i], x) {
            return Some(i);
        }
        i = i + 1;
    }
    None
}


// ---------------------------------------------------------------------------
// What every grouping keeps
// ---------------------------------------------------------------------------
/// The items of a group: the item of a single, the members of a group.
pub open spec fn group_items(g: GroupView) -> Seq<ItemView> {
    match g {
        GroupView::Single(it) => seq![it],
        GroupView::ImplGroup { members, .. } => members,
    }
}

/// The items of the groups, group after group.
pub open spec fn flatten_groups(gs: Seq<GroupView>) -> Seq<ItemView>
    decreases gs.len(),
{
    if gs.len() == 0 {
        seq![]
    } else {
        flatten_groups(gs.drop_last()) + group_items(gs.last())
    }
}

/// No item's key comes before that of an earlier item.
pub open spec fn ordered_by(s: Seq<ItemView>, k: OrderKey) -> bool {
    forall|i: int, j: int|
        0 <= i < j < s.len() ==> !lex_lt(order_key(k, #[trigger] s[j]), order_key(k, #[trigger] s[i]))
}

/// A group as the grouping of `items` makes it: a single is one of the items;
/// a condensed group has two or more of the items as members, all impls of
/// standard library traits for one type, ordered by trait name, its first
/// member standing for the group.
pub open spec fn well_grouped(g: GroupView, items: Seq<ItemView>) -> bool {
    match g {
        GroupView::Single(it) => items.contains(it),
        GroupView::ImplGroup { impl_item, members, is_std_trait } => {
            &&& is_std_trait
            &&& members.len() >= 2
            &&& impl_item == members[0]
            &&& ordered_by(members, OrderKey::TraitName)
            &&& forall|j: int|
                0 <= j < members.len() ==> {
                    &&& items.contains(#[trigger] members[j])
                    &&& is_trait_impl(members[j])
                    &&& parse_impl(members[j].tokens).unwrap().is_std_trait
                    &&& impl_key(members[j]) == impl_key(members[0])
                }
        },
    }
}

proof fn lemma_insert_ordered_multiset(s: Seq<ItemView>, x: ItemView, k: OrderKey)
    ensures
        insert_ordered(s, x, k).to_multiset() == s.to_multiset().insert(x),
    decreases s.len(),
{
    broadcast use {vstd::seq_lib::group_to_multiset_ensures, vstd::multiset::group_multiset_axioms};

    if s.len() == 0 {
        assert(s.push(x) =~= seq![x]);
    } else if lex_lt(order_key(k, x), order_key(k, s.last())) {
        lemma_insert_ordered_multiset(s.drop_last(), x, k);
        assert(s.drop_last().push(s.last()) =~= s);
        assert(insert_ordered(s, x, k).to_multiset() =~= s.to_multiset().insert(x));
    }
}

/// Sorting keeps the items, each as often as it was there.
pub proof fn lemma_sort_multiset(s: Seq<ItemView>, k: OrderKey)
    ensures
        sort_ordered(s, k).to_multiset() == s.to_multiset(),
    decreases s.len(),
{
    broadcast use {vstd::seq_lib::group_to_multiset_ensures, vstd::multiset::group_multiset_axioms};

    if s.len() == 0 {
        assert(s =~= seq![]);
    } else {
        lemma_sort_multiset(s.drop_last(), k);
        lemma_insert_ordered_multiset(sort_ordered(s.drop_last(), k), s.last(), k);
        assert(s.drop_last().push(s.last()) =~= s);
    }
}

/// "Not after" is transitive.
proof fn lemma_not_after_trans(a: Seq<char>, b: Seq<char>, c: Seq<char>)
    requires
        !lex_lt(b, a),
        !lex_lt(c, b),
    ensures
        !lex_lt(c, a),
{
    if lex_lt(c, a) {
        crate::order::lemma_lex_total(a, b);
        if lex_lt(a, b) {
            crate::order::lemma_lex_transitive(c, a, b);
        }
    }
}

proof fn lemma_insert_ordered_ordered(s: Seq<ItemView>, x: ItemView, k: OrderKey)
    requires
        ordered_by(s, k),
    ensures
        ordered_by(insert_ordered(s, x, k), k),
    decreases s.len(),
{
    broadcast use {vstd::seq_lib::group_to_multiset_ensures, vstd::multiset::group_multiset_axioms};

    let ox = order_key(k, x);
    if s.len() == 0 {
    } else if lex_lt(ox, order_key(k, s.last())) {
        let dl = s.drop_last();
        let last = s.last();
        let r = insert_ordered(dl, x, k);
        assert(ordered_by(dl, k)) by {
            assert forall|i: int, j: int| 0 <= i < j < dl.len() implies !lex_lt(
                order_key(k, #[trigger] dl[j]),
                order_key(k, #[trigger] dl[i]),
            ) by {
                assert(dl[i] == s[i] && dl[j] == s[j]);
            }
        }
        lemma_insert_ordered_ordered(dl, x, k);
        lemma_insert_ordered_multiset(dl, x, k);
        assert forall|i: int| 0 <= i < r.len() implies !lex_lt(order_key(k, last), order_key(k, #[trigger] r[i])) by {
            assert(r.to_multiset().count(r[i]) > 0);
            if r[i] == x {
                crate::order::lemma_lex_asymmetric(ox, order_key(k, last));
            } else {
                assert(dl.to_multiset().count(r[i]) > 0);
                assert(dl.contains(r[i]));
                let q = choose|q: int| 0 <= q < dl.len() && dl[q] == r[i];
                assert(s[q] == r[i]);
                assert(s[s.len() - 1] == last);
            }
        }
        let t = r.push(last);
        assert forall|i: int, j: int| 0 <= i < j < t.len() implies !lex_lt(
            order_key(k, #[trigger] t[j]),
            order_key(k, #[trigger] t[i]),
        ) by {
            if j < r.len() {
                assert(t[i] == r[i] && t[j] == r[j]);
            } else {
                assert(t[j] == last && t[i] == r[i]);
            }
        }
    } else {
        let t = s.push(x);
        let ol = order_key(k, s.last());
        assert forall|i: int, j: int| 0 <= i < j < t.len() implies !lex_lt(
            order_key(k, #[trigger] t[j]),
            order_key(k, #[trigger] t[i]),
        ) by {
            if j < s.len() {
                assert(t[i] == s[i] && t[j] == s[j]);
            } else {
                assert(t[j] == x && t[i] == s[i]);
                if i < s.len() - 1 {
                    assert(s[s.len() - 1] == s.last());
                    assert(!lex_lt(ol, order_key(k, s[i])));
                    lemma_not_after_trans(order_key(k, s[i]), ol, ox);
                } else {
                    assert(s[i] == s.last());
                }
            }
        }
    }
}

/// Sorting orders the items by key.
pub proof fn lemma_sort_ordered(s: Seq<ItemView>, k: OrderKey)
    ensures
        ordered_by(sort_ordered(s, k), k),
    decreases s.len(),
{
    if s.len() > 0 {
        lemma_sort_ordered(s.drop_last(), k);
        lemma_insert_ordered_ordered(sort_ordered(s.drop_last(), k), s.last(), k);
    }
}

proof fn lemma_with_key_items(items: Seq<ItemView>, k: Seq<char>)
    ensures
        forall|j: int|
            0 <= j < with_key(items, k).len() ==> {
                &&& items.contains(#[trigger] with_key(items, k)[j])
                &&& is_trait_impl(with_key(items, k)[j])
                &&& impl_key(with_key(items, k)[j]) == k
            },
    decreases items.len(),
{
    broadcast use vstd::seq_lib::group_seq_properties;

    if items.len() > 0 {
        lemma_with_key_items(items.drop_last(), k);
        let w0 = with_key(items.drop_last(), k);
        let w = with_key(items, k);
        assert forall|j: int| 0 <= j < w.len() implies {
            &&& items.contains(#[trigger] w[j])
            &&& is_trait_impl(w[j])
            &&& impl_key(w[j]) == k
        } by {
            if j < w0.len() {
                assert(w[j] == w0[j]);
                assert(items.drop_last().contains(w0[j]));
                let q = choose|q: int| 0 <= q < items.drop_last().len() && items.drop_last()[q] == w0[j];
                assert(items[q] == w0[j]);
            } else {
                assert(w[j] == items.last());
                assert(items[items.len() - 1] == items.last());
            }
        }
    }
}

proof fn lemma_non_trait_items_in(items: Seq<ItemView>)
    ensures
        forall|j: int| 0 <= j < non_trait_items(items).len() ==> items.contains(#[trigger] non_trait_items(items)[j]),
    decreases items.len(),
{
    if items.len() > 0 {
        lemma_non_trait_items_in(items.drop_last());
        let r0 = non_trait_items(items.drop_last());
        let r = non_trait_items(items);
        assert forall|j: int| 0 <= j < r.len() implies items.contains(#[trigger] r[j]) by {
            if j < r0.len() {
                assert(r[j] == r0[j]);
                assert(items.drop_last().contains(r0[j]));
                let q = choose|q: int| 0 <= q < items.drop_last().len() && items.drop_last()[q] == r0[j];
                assert(items[q] == r0[j]);
            } else {
                assert(r[j] == items.last());
                assert(items[items.len() - 1] == items.last());
            }
        }
    }
}

proof fn lemma_members_split(ms: Seq<ItemView>)
    ensures
        forall|j: int|
            0 <= j < std_members(ms).len() ==> ms.contains(#[trigger] std_members(ms)[j]) && is_std_impl(
                std_members(ms)[j],
            ),
        forall|j: int| 0 <= j < other_members(ms).len() ==> ms.contains(#[trigger] other_members(ms)[j]),
        std_members(ms).to_multiset().add(other_members(ms).to_multiset()) == ms.to_multiset(),
    decreases ms.len(),
{
    broadcast use {vstd::seq_lib::group_to_multiset_ensures, vstd::multiset::group_multiset_axioms};

    if ms.len() == 0 {
        assert(ms =~= seq![]);
        assert(std_members(ms).to_multiset().add(other_members(ms).to_multiset()) =~= ms.to_multiset());
    } else {
        let p = ms.drop_last();
        let x = ms.last();
        lemma_members_split(p);
        assert(p.push(x) =~= ms);
        assert(ms[ms.len() - 1] == x);
        let s0 = std_members(p);
        let o0 = other_members(p);
        assert forall|j: int| 0 <= j < std_members(ms).len() implies ms.contains(#[trigger] std_members(ms)[j])
            && is_std_impl(std_members(ms)[j]) by {
            if j < s0.len() {
                assert(std_members(ms)[j] == s0[j]);
                let q = choose|q: int| 0 <= q < p.len() && p[q] == s0[j];
                assert(ms[q] == s0[j]);
            }
        }
        assert forall|j: int| 0 <= j < other_members(ms).len() implies ms.contains(#[trigger] other_members(ms)[j]) by {
            if j < o0.len() {
                assert(other_members(ms)[j] == o0[j]);
                let q = choose|q: int| 0 <= q < p.len() && p[q] == o0[j];
                assert(ms[q] == o0[j]);
            }
        }
        assert(std_members(ms).to_multiset().add(other_members(ms).to_multiset()) =~= ms.to_multiset());
    }
}

proof fn lemma_groups_of_well(items: Seq<ItemView>, k: Seq<char>)
    ensures
        forall|i: int|
            0 <= i < groups_of(with_key(items, k)).len() ==> well_grouped(
                #[trigger] groups_of(with_key(items, k))[i],
                items,
            ),
{
    broadcast use {vstd::seq_lib::group_to_multiset_ensures, vstd::multiset::group_multiset_axioms};

    let ms = with_key(items, k);
    lemma_with_key_items(items, k);
    lemma_members_split(ms);
    let sm = std_members(ms);
    let om = other_members(ms);
    if sm.len() > 1 {
        let s = sort_by_trait(sm);
        lemma_sort_multiset(sm, OrderKey::TraitName);
        lemma_sort_ordered(sm, OrderKey::TraitName);
        lemma_sort_len(sm, OrderKey::TraitName);
        assert forall|j: int| 0 <= j < s.len() implies {
            &&& items.contains(#[trigger] s[j])
            &&& is_trait_impl(s[j])
            &&& parse_impl(s[j].tokens).unwrap().is_std_trait
            &&& impl_key(s[j]) == impl_key(s[0])
        } by {
            assert(s.to_multiset().count(s[j]) > 0);
            assert(sm.to_multiset().count(s[j]) > 0);
            let q = choose|q: int| 0 <= q < sm.len() && sm[q] == s[j];
            let q1 = choose|q1: int| 0 <= q1 < ms.len() && ms[q1] == sm[q];
            assert(s.to_multiset().count(s[0]) > 0);
            assert(sm.to_multiset().count(s[0]) > 0);
            let r = choose|r: int| 0 <= r < sm.len() && sm[r] == s[0];
            let r1 = choose|r1: int| 0 <= r1 < ms.len() && ms[r1] == sm[r];
        }
        let g = groups_of(ms);
        let tail = om.map_values(|m: ItemView| GroupView::Single(m));
        assert forall|i: int| 0 <= i < g.len() implies well_grouped(#[trigger] g[i], items) by {
            if i == 0 {
                assert(g[0] == GroupView::ImplGroup { impl_item: s[0], members: s, is_std_trait: true });
            } else {
                assert(g[i] == tail[i - 1]);
                assert(tail[i - 1] == GroupView::Single(om[i - 1]));
                let q = choose|q: int| 0 <= q < ms.len() && ms[q] == om[i - 1];
            }
        }
    } else {
        assert forall|i: int| 0 <= i < groups_of(ms).len() implies well_grouped(#[trigger] groups_of(ms)[i], items) by {
            assert(groups_of(ms)[i] == GroupView::Single(ms[i]));
        }
    }
}

proof fn lemma_keyed_groups_well(items: Seq<ItemView>, ks: Seq<Seq<char>>)
    ensures
        forall|i: int|
            0 <= i < keyed_groups(items, ks).len() ==> well_grouped(#[trigger] keyed_groups(items, ks)[i], items),
    decreases ks.len(),
{
    if ks.len() > 0 {
        lemma_keyed_groups_well(items, ks.drop_last());
        lemma_groups_of_well(items, ks.last());
        let a = keyed_groups(items, ks.drop_last());
        let b = groups_of(with_key(items, ks.last()));
        assert forall|i: int| 0 <= i < keyed_groups(items, ks).len() implies well_grouped(
            #[trigger] keyed_groups(items, ks)[i],
            items,
        ) by {
            if i < a.len() {
                assert(keyed_groups(items, ks)[i] == a[i]);
            } else {
                assert(keyed_groups(items, ks)[i] == b[i - a.len()]);
            }
        }
    }
}

/// Every group of a grouping is well formed: a single is one of the items; a
/// condensed group holds two or more of the items, all impls of standard
/// library traits for one type, ordered by trait name, and is rendered from
/// its first member.
pub proof fn lemma_groups_well_formed(items: Seq<ItemView>)
    ensures
        forall|i: int| 0 <= i < grouped(items).len() ==> well_grouped(#[trigger] grouped(items)[i], items),
{
    let a = keyed_groups(items, group_keys(items));
    let nt = non_trait_items(items);
    let b = nt.map_values(|m: ItemView| GroupView::Single(m));
    lemma_keyed_groups_well(items, group_keys(items));
    lemma_non_trait_items_in(items);
    assert forall|i: int| 0 <= i < grouped(items).len() implies well_grouped(#[trigger] grouped(items)[i], items) by {
        if i < a.len() {
            assert(grouped(items)[i] == a[i]);
        } else {
            assert(grouped(items)[i] == b[i - a.len()]);
            assert(b[i - a.len()] == GroupView::Single(nt[i - a.len()]));
        }
    }
}

proof fn lemma_flatten_append(a: Seq<GroupView>, b: Seq<GroupView>)
    ensures
        flatten_groups(a + b) == flatten_groups(a) + flatten_groups(b),
    decreases b.len(),
{
    if b.len() == 0 {
        assert(a + b =~= a);
        assert(flatten_groups(a) + seq![] =~= flatten_groups(a));
    } else {
        assert((a + b).drop_last() =~= a + b.drop_last());
        lemma_flatten_append(a, b.drop_last());
        assert(flatten_groups(a) + flatten_groups(b.drop_last()) + group_items(b.last()) =~= flatten_groups(a) + (
        flatten_groups(b.drop_last()) + group_items(b.last())));
    }
}

proof fn lemma_flatten_singles(s: Seq<ItemView>)
    ensures
        flatten_groups(s.map_values(|m: ItemView| GroupView::Single(m))) == s,
    decreases s.len(),
{
    let g = s.map_values(|m: ItemView| GroupView::Single(m));
    if s.len() == 0 {
        assert(g.len() == 0);
        assert(s =~= seq![]);
    } else {
        lemma_flatten_singles(s.drop_last());
        assert(g.drop_last() =~= s.drop_last().map_values(|m: ItemView| GroupView::Single(m)));
        assert(g.last() == GroupView::Single(s.last()));
        assert(s.drop_last() + seq![s.last()] =~= s);
    }
}

/// The items of the trait impl blocks of the types `ks`, type after type.
pub open spec fn keyed_items(items: Seq<ItemView>, ks: Seq<Seq<char>>) -> Seq<ItemView>
    decreases ks.len(),
{
    if ks.len() == 0 {
        seq![]
    } else {
        keyed_items(items, ks.drop_last()) + with_key(items, ks.last())
    }
}

proof fn lemma_keyed_groups_items(items: Seq<ItemView>, ks: Seq<Seq<char>>)
    ensures
        flatten_groups(keyed_groups(items, ks)).to_multiset() == keyed_items(items, ks).to_multiset(),
    decreases ks.len(),
{
    broadcast use {vstd::seq_lib::group_to_multiset_ensures, vstd::multiset::group_multiset_axioms, vstd::seq_lib::lemma_multiset_commutative};

    if ks.len() > 0 {
        lemma_keyed_groups_items(items, ks.drop_last());
        let ms = with_key(items, ks.last());
        let a = keyed_groups(items, ks.drop_last());
        lemma_flatten_append(a, groups_of(ms));
        if std_members(ms).len() > 1 {
            let sm = std_members(ms);
            let s = sort_by_trait(sm);
            lemma_sort_multiset(sm, OrderKey::TraitName);
            lemma_members_split(ms);
            let g = seq![GroupView::ImplGroup { impl_item: s[0], members: s, is_std_trait: true }];
            let tail = other_members(ms).map_values(|m: ItemView| GroupView::Single(m));
            assert(g.drop_last() =~= seq![]);
            assert(flatten_groups(g.drop_last()) =~= seq![]);
            assert(group_items(g.last()) == s);
            assert(flatten_groups(g) =~= s);
            lemma_flatten_append(g, tail);
            lemma_flatten_singles(other_members(ms));
        } else {
            lemma_flatten_singles(ms);
        }
        assert(flatten_groups(keyed_groups(items, ks)).to_multiset() =~= keyed_items(items, ks).to_multiset());
    }
}

proof fn lemma_keyed_items_push(p: Seq<ItemView>, x: ItemView, ks: Seq<Seq<char>>)
    requires
        ks.no_duplicates(),
    ensures
        is_trait_impl(x) && ks.contains(impl_key(x)) ==> keyed_items(p.push(x), ks).to_multiset()
            == keyed_items(p, ks).to_multiset().insert(x),
        !(is_trait_impl(x) && ks.contains(impl_key(x))) ==> keyed_items(p.push(x), ks).to_multiset()
            == keyed_items(p, ks).to_multiset(),
    decreases ks.len(),
{
    broadcast use {vstd::seq_lib::group_to_multiset_ensures, vstd::multiset::group_multiset_axioms, vstd::seq_lib::lemma_multiset_commutative, vstd::seq_lib::group_seq_properties};

    if ks.len() > 0 {
        let q = p.push(x);
        assert(q.drop_last() =~= p);
        assert(ks.drop_last().no_duplicates()) by {
            assert forall|i: int, j: int| 0 <= i < ks.drop_last().len() && 0 <= j < ks.drop_last().len() && i != j implies ks.drop_last()[i] != ks.drop_last()[j] by {
                assert(ks.drop_last()[i] == ks[i] && ks.drop_last()[j] == ks[j]);
            }
        }
        lemma_keyed_items_push(p, x, ks.drop_last());
        let last = ks.last();
        if is_trait_impl(x) && impl_key(x) == last {
            assert(!ks.drop_last().contains(last)) by {
                if ks.drop_last().contains(last) {
                    let i = choose|i: int| 0 <= i < ks.drop_last().len() && ks.drop_last()[i] == last;
                    assert(ks[i] == ks[ks.len() - 1]);
                }
            }
            assert(with_key(q, last) == with_key(p, last).push(x));
        } else {
            assert(with_key(q, last) == with_key(p, last));
            if is_trait_impl(x) {
                assert(ks.contains(impl_key(x)) == ks.drop_last().contains(impl_key(x))) by {
                    if ks.contains(impl_key(x)) {
                        let i = choose|i: int| 0 <= i < ks.len() && ks[i] == impl_key(x);
                        assert(i < ks.len() - 1);
                        assert(ks.drop_last()[i] == impl_key(x));
                    }
                }
            }
        }
        assert(keyed_items(q, ks).to_multiset() =~= keyed_items(q, ks.drop_last()).to_multiset().add(with_key(q, last).to_multiset()));
        assert(keyed_items(p, ks).to_multiset() =~= keyed_items(p, ks.drop_last()).to_multiset().add(with_key(p, last).to_multiset()));
    }
}

proof fn lemma_partition(items: Seq<ItemView>, ks: Seq<Seq<char>>)
    requires
        ks.no_duplicates(),
        forall|i: int| 0 <= i < items.len() && is_trait_impl(#[trigger] items[i]) ==> ks.contains(impl_key(items[i])),
    ensures
        keyed_items(items, ks).to_multiset().add(non_trait_items(items).to_multiset()) == items.to_multiset(),
    decreases items.len(),
{
    broadcast use {vstd::seq_lib::group_to_multiset_ensures, vstd::multiset::group_multiset_axioms};

    if items.len() == 0 {
        lemma_keyed_items_empty(ks);
        assert(items =~= seq![]);
        assert(keyed_items(items, ks).to_multiset().add(non_trait_items(items).to_multiset()) =~= items.to_multiset());
    } else {
        let p = items.drop_last();
        let x = items.last();
        assert(p.push(x) =~= items);
        assert forall|i: int| 0 <= i < p.len() && is_trait_impl(#[trigger] p[i]) implies ks.contains(impl_key(p[i])) by {
            assert(items[i] == p[i]);
        }
        lemma_partition(p, ks);
        lemma_keyed_items_push(p, x, ks);
        if is_trait_impl(x) {
            assert(items[items.len() - 1] == x);
        }
        assert(keyed_items(items, ks).to_multiset().add(non_trait_items(items).to_multiset()) =~= items.to_multiset());
    }
}

proof fn lemma_keyed_items_empty(ks: Seq<Seq<char>>)
    ensures
        keyed_items(Seq::<ItemView>::empty(), ks) == Seq::<ItemView>::empty(),
    decreases ks.len(),
{
    if ks.len() > 0 {
        lemma_keyed_items_empty(ks.drop_last());
        assert(with_key(Seq::<ItemView>::empty(), ks.last()) == Seq::<ItemView>::empty());
        assert(Seq::<ItemView>::empty() + Seq::<ItemView>::empty() =~= Seq::<ItemView>::empty());
    }
}

proof fn lemma_group_keys_cover(items: Seq<ItemView>)
    ensures
        forall|i: int|
            0 <= i < items.len() && is_trait_impl(#[trigger] items[i]) ==> group_keys(items).contains(impl_key(items[i])),
    decreases items.len(),
{
    broadcast use vstd::seq_lib::group_seq_properties;

    if items.len() > 0 {
        let p = items.drop_last();
        lemma_group_keys_cover(p);
        assert forall|i: int| 0 <= i < items.len() && is_trait_impl(#[trigger] items[i]) implies group_keys(items).contains(impl_key(items[i])) by {
            let ks = group_keys(p);
            if i < p.len() {
                assert(items[i] == p[i]);
                assert(ks.contains(impl_key(p[i])));
                let q = choose|q: int| 0 <= q < ks.len() && ks[q] == impl_key(p[i]);
                assert(group_keys(items)[q] == ks[q]);
            } else {
                assert(items[i] == items.last());
                if !ks.contains(impl_key(items.last())) {
                    assert(group_keys(items)[ks.len() as int] == impl_key(items.last()));
                } else {
                    assert(group_keys(items) == ks);
                }
            }
        }
    }
}

/// Grouping loses no item and adds none: the groups hold the items, each as
/// often as it was given.
pub proof fn lemma_grouping_keeps_items(items: Seq<ItemView>)
    ensures
        flatten_groups(grouped(items)).to_multiset() == items.to_multiset(),
{
    broadcast use {vstd::seq_lib::group_to_multiset_ensures, vstd::multiset::group_multiset_axioms, vstd::seq_lib::lemma_multiset_commutative};

    let ks = group_keys(items);
    let nt = non_trait_items(items);
    lemma_group_keys_distinct(items);
    lemma_group_keys_cover(items);
    lemma_partition(items, ks);
    lemma_keyed_groups_items(items, ks);
    lemma_flatten_append(keyed_groups(items, ks), nt.map_values(|m: ItemView| GroupView::Single(m)));
    lemma_flatten_singles(nt);
    assert(flatten_groups(grouped(items)).to_multiset() =~= items.to_multiset());
}

// ---------------------------------------------------------------------------
// Standard library impls of one type are condensed
// ---------------------------------------------------------------------------
/// How many of the items are trait impl blocks of a standard library trait
/// for type `k`.
pub open spec fn std_impl_count(items: Seq<ItemView>, k: Seq<char>) -> nat
    decreases items.len(),
{
    if items.len() == 0 {
        0
    } else {
        let it = items.last();
        std_impl_count(items.drop_last(), k) + if is_trait_impl(it) && impl_key(it) == k && is_std_impl(it) {
            1nat
        } else {
            0nat
        }
    }
}

proof fn lemma_std_impl_count(items: Seq<ItemView>, k: Seq<char>)
    ensures
        std_impl_count(items, k) == std_members(with_key(items, k)).len(),
    decreases items.len(),
{
    if items.len() > 0 {
        let p = items.drop_last();
        let it = items.last();
        lemma_std_impl_count(p, k);
        let w = with_key(p, k);
        if is_trait_impl(it) && impl_key(it) == k {
            assert(w.push(it).drop_last() =~= w);
            assert(w.push(it).last() == it);
        }
    }
}

proof fn lemma_with_key_has(items: Seq<ItemView>, k: Seq<char>, j: int)
    requires
        0 <= j < items.len(),
        is_trait_impl(items[j]),
        impl_key(items[j]) == k,
    ensures
        with_key(items, k).contains(items[j]),
    decreases items.len(),
{
    let r = with_key(items, k);
    if j == items.len() - 1 {
        assert(r[r.len() - 1] == items[j]);
    } else {
        let p = items.drop_last();
        assert(p[j] == items[j]);
        lemma_with_key_has(p, k, j);
        let q = choose|q: int| 0 <= q < with_key(p, k).len() && with_key(p, k)[q] == items[j];
        assert(r[q] == items[j]);
    }
}

proof fn lemma_std_members_has(ms: Seq<ItemView>, j: int)
    requires
        0 <= j < ms.len(),
        is_std_impl(ms[j]),
    ensures
        std_members(ms).contains(ms[j]),
    decreases ms.len(),
{
    let r = std_members(ms);
    if j == ms.len() - 1 {
        assert(r[r.len() - 1] == ms[j]);
    } else {
        let p = ms.drop_last();
        assert(p[j] == ms[j]);
        lemma_std_members_has(p, j);
        let q = choose|q: int| 0 <= q < std_members(p).len() && std_members(p)[q] == ms[j];
        assert(r[q] == ms[j]);
    }
}

proof fn lemma_other_members_not_std(ms: Seq<ItemView>)
    ensures
        forall|j: int| 0 <= j < other_members(ms).len() ==> !is_std_impl(#[trigger] other_members(ms)[j]),
    decreases ms.len(),
{
    if ms.len() > 0 {
        lemma_other_members_not_std(ms.drop_last());
        let r0 = other_members(ms.drop_last());
        let r = other_members(ms);
        assert forall|j: int| 0 <= j < r.len() implies !is_std_impl(#[trigger] r[j]) by {
            if j < r0.len() {
                assert(r[j] == r0[j]);
            }
        }
    }
}

proof fn lemma_non_trait_items_not_impls(items: Seq<ItemView>)
    ensures
        forall|j: int| 0 <= j < non_trait_items(items).len() ==> !is_trait_impl(#[trigger] non_trait_items(items)[j]),
    decreases items.len(),
{
    if items.len() > 0 {
        lemma_non_trait_items_not_impls(items.drop_last());
        let r0 = non_trait_items(items.drop_last());
        let r = non_trait_items(items);
        assert forall|j: int| 0 <= j < r.len() implies !is_trait_impl(#[trigger] r[j]) by {
            if j < r0.len() {
                assert(r[j] == r0[j]);
            }
        }
    }
}

proof fn lemma_keyed_groups_has(items: Seq<ItemView>, ks: Seq<Seq<char>>, q: int, g: GroupView)
    requires
        0 <= q < ks.len(),
        groups_of(with_key(items, ks[q])).contains(g),
    ensures
        keyed_groups(items, ks).contains(g),
    decreases ks.len(),
{
    let a = keyed_groups(items, ks.drop_last());
    let b = groups_of(with_key(items, ks.last()));
    if q == ks.len() - 1 {
        let j = choose|j: int| 0 <= j < b.len() && b[j] == g;
        assert((a + b)[a.len() + j] == g);
    } else {
        assert(ks.drop_last()[q] == ks[q]);
        lemma_keyed_groups_has(items, ks.drop_last(), q, g);
        let j = choose|j: int| 0 <= j < a.len() && a[j] == g;
        assert((a + b)[j] == g);
    }
}

proof fn lemma_keyed_singles(items: Seq<ItemView>, ks: Seq<Seq<char>>)
    ensures
        forall|i: int|
            0 <= i < keyed_groups(items, ks).len() && (#[trigger] keyed_groups(items, ks)[i] is Single) ==> {
                let y = keyed_groups(items, ks)[i]->Single_0;
                !is_std_impl(y) || (is_trait_impl(y) && std_members(with_key(items, impl_key(y))).len() <= 1)
            },
    decreases ks.len(),
{
    if ks.len() > 0 {
        lemma_keyed_singles(items, ks.drop_last());
        let a = keyed_groups(items, ks.drop_last());
        let k = ks.last();
        let ms = with_key(items, k);
        let b = groups_of(ms);
        lemma_with_key_items(items, k);
        lemma_other_members_not_std(ms);
        assert forall|i: int| 0 <= i < keyed_groups(items, ks).len() && (#[trigger] keyed_groups(items, ks)[i] is Single) implies {
            let y = keyed_groups(items, ks)[i]->Single_0;
            !is_std_impl(y) || (is_trait_impl(y) && std_members(with_key(items, impl_key(y))).len() <= 1)
        } by {
            let gs = keyed_groups(items, ks);
            assert(gs == a + b);
            if i < a.len() {
                assert(gs[i] == a[i]);
            } else {
                let j = i - a.len();
                assert(gs[i] == b[j]);
                if std_members(ms).len() > 1 {
                    let s = sort_by_trait(std_members(ms));
                    let head = seq![GroupView::ImplGroup { impl_item: s[0], members: s, is_std_trait: true }];
                    let tail = other_members(ms).map_values(|m: ItemView| GroupView::Single(m));
                    assert(b == head + tail);
                    assert(j >= 1);
                    assert(b[j] == tail[j - 1]);
                    assert(!is_std_impl(other_members(ms)[j - 1]));
                } else {
                    assert(b[j] == GroupView::Single(ms[j]));
                    assert(impl_key(ms[j]) == k);
                }
            }
        }
    }
}

/// For each type, when two or more of its trait impl blocks implement
/// standard library traits, each of them is a member of a condensed group of
/// the grouping, and none of them stands on its own.
pub proof fn lemma_std_impls_condensed(items: Seq<ItemView>, x: ItemView)
    requires
        items.contains(x),
        is_trait_impl(x),
        is_std_impl(x),
        std_impl_count(items, impl_key(x)) >= 2,
    ensures
        exists|i: int|
            0 <= i < grouped(items).len() && (#[trigger] grouped(items)[i] matches GroupView::ImplGroup { members, .. }
                && members.contains(x)),
        forall|i: int| 0 <= i < grouped(items).len() ==> #[trigger] grouped(items)[i] != GroupView::Single(x),
{
    broadcast use {vstd::seq_lib::group_to_multiset_ensures, vstd::multiset::group_multiset_axioms};

    let k = impl_key(x);
    let xj = choose|j: int| 0 <= j < items.len() && items[j] == x;
    let ms = with_key(items, k);
    lemma_std_impl_count(items, k);
    lemma_with_key_has(items, k, xj);
    let mj = choose|j: int| 0 <= j < ms.len() && ms[j] == x;
    lemma_std_members_has(ms, mj);
    let sm = std_members(ms);
    let s = sort_by_trait(sm);
    lemma_sort_multiset(sm, OrderKey::TraitName);
    assert(sm.to_multiset().count(x) > 0);
    assert(s.to_multiset().count(x) > 0);
    assert(s.contains(x));
    let g = GroupView::ImplGroup { impl_item: s[0], members: s, is_std_trait: true };
    assert(groups_of(ms)[0] == g);
    assert(groups_of(ms).contains(g));
    let ks = group_keys(items);
    lemma_group_keys_cover(items);
    assert(ks.contains(k));
    let q = choose|q: int| 0 <= q < ks.len() && ks[q] == k;
    lemma_keyed_groups_has(items, ks, q, g);
    let kg = keyed_groups(items, ks);
    let nt = non_trait_items(items);
    let sg = nt.map_values(|m: ItemView| GroupView::Single(m));
    let gs = grouped(items);
    assert(gs == kg + sg);
    let gi = choose|i: int| 0 <= i < kg.len() && kg[i] == g;
    assert(gs[gi] == g);
    lemma_keyed_singles(items, ks);
    lemma_non_trait_items_not_impls(items);
    assert forall|i: int| 0 <= i < gs.len() implies #[trigger] gs[i] != GroupView::Single(x) by {
        if i < kg.len() {
            assert(gs[i] == kg[i]);
        } else {
            assert(gs[i] == sg[i - kg.len()]);
            assert(sg[i - kg.len()] == GroupView::Single(nt[i - kg.len()]));
        }
    }
}

} // verus!



