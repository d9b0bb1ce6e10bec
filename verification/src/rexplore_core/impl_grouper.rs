//! Groups impl blocks and their methods to reduce output noise:
//! 1. methods go into their impl block: `impl Foo { fn bar(); fn baz(); }`
//! 2. concrete impls of standard library traits for one type are condensed:
//!    `impl Debug + Display + Clone for Foo`
use std::collections::HashMap;
use vstd::prelude::*;

use crate::impl_grouper::{
    condensed_impl, lemma_sort_len, lemma_sort_multiset, lemma_sort_ordered, ordered_by, sort_group,
    sort_ordered, OrderKey,
};
use crate::namespace_manager::{apply_shortenings, longest_first, NamespaceManager};
use crate::public_item::{item_text, views, ItemView, PublicItem};
use crate::text::{
    chars_eq, chars_of, contains, contains_exec, find, find_exec, join_exec, push_all,
    starts_with, starts_with_exec, string_of, subrange, trim, trim_end_char, trim_end_char_exec,
    trim_exec, trim_start, utf8_width, utf8_width_exec,
};
use crate::tokens::tokens_chars;

verus! {

broadcast use vstd::std_specs::hash::group_hash_axioms;

// ---------------------------------------------------------------------------
// What the grouping reads of the crate
// ---------------------------------------------------------------------------
/// What kind of item the crate's index holds for an id.
#[derive(Clone, Copy, Debug, PartialEq, Eq)]
pub enum ItemKind {
    /// An impl block, of the trait with this id if it is a trait impl.
    Impl { trait_id: Option<u32> },
    /// A function or method.
    Function,
    /// An associated constant.
    AssocConst,
    /// An associated type.
    AssocType,
    /// Anything else.
    Other,
}

/// What the grouping reads of a crate's rustdoc data: the kind of each
/// indexed item, and the path of each item with a known path.
pub struct CrateIndex {
    /// The kind of each item of the index, by id.
    pub index: HashMap<u32, ItemKind>,
    /// The path segments of items, by id (e.g. `["core", "fmt", "Debug"]`).
    pub paths: HashMap<u32, Vec<String>>,
}

/// The index and paths of a crate, as maps.
pub struct IndexView {
    pub index: Map<u32, ItemKind>,
    pub paths: Map<u32, Vec<String>>,
}

impl View for CrateIndex {
    type V = IndexView;

    open spec fn view(&self) -> IndexView {
        IndexView { index: self.index@, paths: self.paths@ }
    }
}

/// `std`, `core` or `alloc`.
pub open spec fn is_std_crate_name(s: Seq<char>) -> bool {
    ||| s == seq!['s', 't', 'd']
    ||| s == seq!['c', 'o', 'r', 'e']
    ||| s == seq!['a', 'l', 'l', 'o', 'c']
}

/// The trait with id `t` has a path whose first segment is `std`, `core` or
/// `alloc`.
pub open spec fn trait_is_std(cx: IndexView, t: u32) -> bool {
    &&& cx.paths.contains_key(t)
    &&& cx.paths[t]@.len() > 0
    &&& is_std_crate_name(cx.paths[t]@[0]@)
}

/// ` for `
pub open spec fn for_sep() -> Seq<char> {
    seq![' ', 'f', 'o', 'r', ' ']
}

/// ` where`
pub open spec fn where_sep() -> Seq<char> {
    seq![' ', 'w', 'h', 'e', 'r', 'e']
}

/// Where an item goes in the grouping.
pub enum Placement {
    /// A concrete impl of a standard library trait, for this type.
    TraitImpl(Seq<char>),
    /// An inherent impl block.
    Inherent,
    /// A method or associated item of the item with this id.
    Method(u32),
    /// On its own.
    Alone,
}

/// The type part of a concrete trait impl's text, after ` for ` at `p`.
pub open spec fn impl_for_key(text: Seq<char>, p: int) -> Seq<char> {
    trim(trim_end_char(text.skip(p + 5), ';'))
}

/// Where an item goes, by what the index says of it.
pub open spec fn placement(cx: IndexView, it: ItemView) -> Placement {
    if !cx.index.contains_key(it.id) {
        Placement::Alone
    } else {
        match cx.index[it.id] {
            ItemKind::Impl { trait_id: Some(t) } => {
                if trait_is_std(cx, t) {
                    let text = item_text(it);
                    if !contains(text, seq!['<']) && !contains(text, where_sep()) {
                        match find(text, for_sep()) {
                            Some(p) => Placement::TraitImpl(impl_for_key(text, p)),
                            None => Placement::Alone,
                        }
                    } else {
                        Placement::Alone
                    }
                } else {
                    Placement::Alone
                }
            },
            ItemKind::Impl { trait_id: None } => Placement::Inherent,
            ItemKind::Function | ItemKind::AssocConst | ItemKind::AssocType => match it.parent_id {
                Some(p) => Placement::Method(p),
                None => Placement::Alone,
            },
            ItemKind::Other => Placement::Alone,
        }
    }
}

/// Whether the trait with id `trait_id` is from the standard library: its
/// path starts with `std`, `core` or `alloc`.
pub fn is_std_trait(trait_id: u32, crate_data: &CrateIndex) -> (b: bool)
    ensures
        b == trait_is_std(crate_data@, trait_id),
        b <==> (crate_data@.paths.contains_key(trait_id) && crate_data@.paths[trait_id]@.len() > 0 && (
        crate_data@.paths[trait_id]@[0]@ == "std"@ || crate_data@.paths[trait_id]@[0]@ == "core"@
            || crate_data@.paths[trait_id]@[0]@ == "alloc"@)),
{
    proof {
        lemma_std_trait_by_first_segment(crate_data@, trait_id);
    }
    match crate_data.paths.get(&trait_id) {
        Some(path) => {
            if path.len() == 0 {
                false
            } else {
                let first = chars_of(path[0].as_str());
                chars_eq(&first, &['s', 't', 'd']) || chars_eq(&first, &['c', 'o', 'r', 'e'])
                    || chars_eq(&first, &['a', 'l', 'l', 'o', 'c'])
            }
        },
        None => false,
    }
}

/// Where an item goes, as computed.
pub enum PlacementExec {
    TraitImpl(Vec<char>),
    Inherent,
    Method(u32),
    Alone,
}

impl View for PlacementExec {
    type V = Placement;

    open spec fn view(&self) -> Placement {
        match self {
            PlacementExec::TraitImpl(k) => Placement::TraitImpl(k@),
            PlacementExec::Inherent => Placement::Inherent,
            PlacementExec::Method(p) => Placement::Method(*p),
            PlacementExec::Alone => Placement::Alone,
        }
    }
}

/// Decides where an item goes.
fn place(crate_data: &CrateIndex, item: &PublicItem) -> (r: PlacementExec)
    ensures
        r@ == placement(crate_data@, item@),
{
    let ghost cx = crate_data@;
    let ghost it = item@;
    match crate_data.index.get(&item.id()) {
        Some(kind) => {
            assert(cx.index.contains_key(it.id) && cx.index[it.id] == *kind);
            match kind {
                ItemKind::Impl { trait_id: Some(t) } => {
                    if is_std_trait(*t, crate_data) {
                        let text = tokens_chars(&item.tokens);
                        assert(item_text(it) == text@);
                        let lt = vec!['<'];
                        let where_sep_v = vec![' ', 'w', 'h', 'e', 'r', 'e'];
                        let for_sep_v = vec![' ', 'f', 'o', 'r', ' '];
                        let is_concrete = !contains_exec(&text, &lt) && !contains_exec(
                            &text,
                            &where_sep_v,
                        );
                        assert(lt@ == seq!['<']);
                        assert(where_sep_v@ == where_sep());
                        assert(for_sep_v@ == for_sep());
                        assert(trait_is_std(cx, *t));
                        assert(is_concrete == (!contains(text@, seq!['<']) && !contains(text@, where_sep())));
                        if is_concrete {
                            assert(!contains(text@, seq!['<']));
                            assert(!contains(text@, where_sep()));
                            assert(trait_is_std(cx, *t));
                            match find_exec(&text, &for_sep_v) {
                                Some(for_pos) => {
                                    proof {
                                        crate::text::lemma_find_from(text@, for_sep(), 0);
                                    }
                                    let n = text.len();
                                    assert(for_pos + 5 <= n);
                                    let after_for = subrange(&text, for_pos + 5, n);
                                    assert(after_for@ =~= text@.skip(for_pos + 5));
                                    let key = trim_exec(&trim_end_char_exec(&after_for, ';'));
                                    assert(placement(cx, it) == Placement::TraitImpl(key@));
                                    PlacementExec::TraitImpl(key)
                                },
                                None => {
                                    assert(placement(cx, it) == Placement::Alone);
                                    PlacementExec::Alone
                                },
                            }
                        } else {
                            assert(placement(cx, it) == Placement::Alone);
                            PlacementExec::Alone
                        }
                    } else {
                        assert(placement(cx, it) == Placement::Alone);
                        PlacementExec::Alone
                    }
                },
                ItemKind::Impl { trait_id: None } => PlacementExec::Inherent,
                ItemKind::Function | ItemKind::AssocConst | ItemKind::AssocType => {
                    match item.parent_id() {
                        Some(p) => PlacementExec::Method(p),
                        None => {
                            assert(placement(cx, it) == Placement::Alone);
                            PlacementExec::Alone
                        },
                    }
                },
                ItemKind::Other => {
                    assert(placement(cx, it) == Placement::Alone);
                    PlacementExec::Alone
                },
            }
        },
        None => {
            assert(!cx.index.contains_key(it.id));
            assert(placement(cx, it) == Placement::Alone);
            PlacementExec::Alone
        },
    }
}

// ---------------------------------------------------------------------------
// The grouping
// ---------------------------------------------------------------------------
/// Either a single item or a group of related items.
#[derive(Debug)]
pub enum ItemGroup {
    /// A single item that isn't part of a group
    Single(PublicItem),
    /// A group of std trait impl blocks for the same type (condensed)
    TraitImplGroup {
        /// All impl items in this group
        members: Vec<PublicItem>,
    },
    /// An impl block with its methods grouped together
    ImplWithMethods {
        /// The impl block itself
        impl_item: PublicItem,
        /// Methods belonging to this impl
        methods: Vec<PublicItem>,
    },
}

/// What a group is, by the views of its items.
pub enum GroupView {
    Single(ItemView),
    TraitImplGroup { members: Seq<ItemView> },
    ImplWithMethods { impl_item: ItemView, methods: Seq<ItemView> },
}

impl View for ItemGroup {
    type V = GroupView;

    open spec fn view(&self) -> GroupView {
        match self {
            ItemGroup::Single(it) => GroupView::Single(it@),
            ItemGroup::TraitImplGroup { members } => GroupView::TraitImplGroup {
                members: views(members@),
            },
            ItemGroup::ImplWithMethods { impl_item, methods } => GroupView::ImplWithMethods {
                impl_item: impl_item@,
                methods: views(methods@),
            },
        }
    }
}

/// The types that concrete std trait impls are for, each once, first seen first.
pub open spec fn trait_impl_keys(cx: IndexView, items: Seq<ItemView>) -> Seq<Seq<char>>
    decreases items.len(),
{
    if items.len() == 0 {
        seq![]
    } else {
        let ks = trait_impl_keys(cx, items.drop_last());
        match placement(cx, items.last()) {
            Placement::TraitImpl(k) => if ks.contains(k) {
                ks
            } else {
                ks.push(k)
            },
            _ => ks,
        }
    }
}

/// The concrete std trait impls for type `k`, in order.
pub open spec fn with_impl_key(cx: IndexView, items: Seq<ItemView>, k: Seq<char>) -> Seq<ItemView>
    decreases items.len(),
{
    if items.len() == 0 {
        seq![]
    } else {
        let r = with_impl_key(cx, items.drop_last(), k);
        if placement(cx, items.last()) == Placement::TraitImpl(k) {
            r.push(items.last())
        } else {
            r
        }
    }
}

/// The inherent impl blocks, in order.
pub open spec fn inherent_blocks(cx: IndexView, items: Seq<ItemView>) -> Seq<ItemView>
    decreases items.len(),
{
    if items.len() == 0 {
        seq![]
    } else {
        let r = inherent_blocks(cx, items.drop_last());
        if placement(cx, items.last()) is Inherent {
            r.push(items.last())
        } else {
            r
        }
    }
}

/// The methods and associated items that have a parent, in order.
pub open spec fn method_items(cx: IndexView, items: Seq<ItemView>) -> Seq<ItemView>
    decreases items.len(),
{
    if items.len() == 0 {
        seq![]
    } else {
        let r = method_items(cx, items.drop_last());
        if placement(cx, items.last()) is Method {
            r.push(items.last())
        } else {
            r
        }
    }
}

/// The items that stay on their own, in order.
pub open spec fn alone_items(cx: IndexView, items: Seq<ItemView>) -> Seq<ItemView>
    decreases items.len(),
{
    if items.len() == 0 {
        seq![]
    } else {
        let r = alone_items(cx, items.drop_last());
        if placement(cx, items.last()) is Alone {
            r.push(items.last())
        } else {
            r
        }
    }
}

/// The items whose parent is `id`, in order.
pub open spec fn with_parent(ms: Seq<ItemView>, id: u32) -> Seq<ItemView>
    decreases ms.len(),
{
    if ms.len() == 0 {
        seq![]
    } else {
        let r = with_parent(ms.drop_last(), id);
        if ms.last().parent_id == Some(id) {
            r.push(ms.last())
        } else {
            r
        }
    }
}

/// The group of the concrete std trait impls of one type: one condensed
/// group, ordered by text, for two or more; else the impl on its own.
pub open spec fn trait_group(ms: Seq<ItemView>) -> GroupView {
    if ms.len() > 1 {
        GroupView::TraitImplGroup { members: sort_ordered(ms, OrderKey::Text) }
    } else {
        GroupView::Single(ms[0])
    }
}

/// The trait impl groups of the types `ks`, type after type.
pub open spec fn trait_groups(cx: IndexView, items: Seq<ItemView>, ks: Seq<Seq<char>>) -> Seq<GroupView>
    decreases ks.len(),
{
    if ks.len() == 0 {
        seq![]
    } else {
        trait_groups(cx, items, ks.drop_last()).push(trait_group(with_impl_key(cx, items, ks.last())))
    }
}

/// Some of `bs` has id `id`.
pub open spec fn id_seen(bs: Seq<ItemView>, id: u32) -> bool {
    exists|i: int| 0 <= i < bs.len() && bs[i].id == id
}

/// The group of an inherent impl block: with its methods when it is the
/// first block with its id and it has methods; else on its own.
pub open spec fn block_group(cx: IndexView, items: Seq<ItemView>, earlier: Seq<ItemView>, b: ItemView) -> GroupView {
    let ms = with_parent(method_items(cx, items), b.id);
    if !id_seen(earlier, b.id) && ms.len() > 0 {
        GroupView::ImplWithMethods { impl_item: b, methods: ms }
    } else {
        GroupView::Single(b)
    }
}

/// The groups of the inherent impl blocks `bs`, in order.
pub open spec fn block_groups(cx: IndexView, items: Seq<ItemView>, bs: Seq<ItemView>) -> Seq<GroupView>
    decreases bs.len(),
{
    if bs.len() == 0 {
        seq![]
    } else {
        block_groups(cx, items, bs.drop_last()).push(block_group(cx, items, bs.drop_last(), bs.last()))
    }
}

/// The methods of `mis` whose parent is none of the blocks `bs`, in order.
pub open spec fn orphan_methods(mis: Seq<ItemView>, bs: Seq<ItemView>) -> Seq<ItemView>
    decreases mis.len(),
{
    if mis.len() == 0 {
        seq![]
    } else {
        let r = orphan_methods(mis.drop_last(), bs);
        let m = mis.last();
        if m.parent_id matches Some(p) && id_seen(bs, p) {
            r
        } else {
            r.push(m)
        }
    }
}

/// The grouping of a listing: the std trait impl groups, type by type in
/// first-seen order; then the inherent impl blocks with their methods; then
/// each method whose parent is no inherent impl block, on its own; then
/// every other item on its own.
pub open spec fn core_grouped(cx: IndexView, items: Seq<ItemView>) -> Seq<GroupView> {
    trait_groups(cx, items, trait_impl_keys(cx, items)) + block_groups(cx, items, inherent_blocks(cx, items))
        + orphan_methods(method_items(cx, items), inherent_blocks(cx, items)).map_values(
        |m: ItemView| GroupView::Single(m),
    ) + alone_items(cx, items).map_values(|m: ItemView| GroupView::Single(m))
}

proof fn lemma_keys_distinct(cx: IndexView, items: Seq<ItemView>)
    ensures
        trait_impl_keys(cx, items).no_duplicates(),
    decreases items.len(),
{
    if items.len() > 0 {
        lemma_keys_distinct(cx, items.drop_last());
    }
}

proof fn lemma_with_impl_key_empty(cx: IndexView, items: Seq<ItemView>, k: Seq<char>)
    requires
        !trait_impl_keys(cx, items).contains(k),
    ensures
        with_impl_key(cx, items, k) == Seq::<ItemView>::empty(),
    decreases items.len(),
{
    if items.len() > 0 {
        let ks = trait_impl_keys(cx, items.drop_last());
        if ks.contains(k) {
            let q = choose|q: int| 0 <= q < ks.len() && ks[q] == k;
            assert(trait_impl_keys(cx, items)[q] == k);
            assert(trait_impl_keys(cx, items).contains(k));
        }
        if placement(cx, items.last()) == Placement::TraitImpl(k) {
            assert(trait_impl_keys(cx, items)[ks.len() as int] == k);
            assert(trait_impl_keys(cx, items).contains(k));
        }
        lemma_with_impl_key_empty(cx, items.drop_last(), k);
    }
}

proof fn lemma_with_impl_key_nonempty(cx: IndexView, items: Seq<ItemView>, k: Seq<char>)
    requires
        trait_impl_keys(cx, items).contains(k),
    ensures
        with_impl_key(cx, items, k).len() > 0,
    decreases items.len(),
{
    if items.len() > 0 {
        let ks = trait_impl_keys(cx, items.drop_last());
        if ks.contains(k) {
            lemma_with_impl_key_nonempty(cx, items.drop_last(), k);
        }
    }
}

/// The position of `x` among the keys, if it is there.
fn key_index(keys: &Vec<Vec<char>>, x: &[char]) -> (r: Option<usize>)
    ensures
        r matches Some(i) ==> i < keys@.len() && keys.deep_view()[i as int] == x@,
        r is None ==> !keys.deep_view().contains(x@),
{
    let mut i: usize = 0;
    while i < keys.len()
        invariant
            i <= keys@.len(),
            forall|k: int| 0 <= k < i ==> keys.deep_view()[k] != x@,
        decreases keys@.len() - i,
    {
        assert(keys.deep_view()[i as int] == keys@[i as int]@);
        if chars_eq(&keys[i], x) {
            return Some(i);
        }
        i = i + 1;
    }
    None
}

/// Whether `id` is among `ids`.
fn has_id(ids: &Vec<u32>, id: u32) -> (b: bool)
    ensures
        b == ids@.contains(id),
{
    let mut i: usize = 0;
    while i < ids.len()
        invariant
            i <= ids@.len(),
            forall|k: int| 0 <= k < i ==> ids@[k] != id,
        decreases ids@.len() - i,
    {
        if ids[i] == id {
            return true;
        }
        i = i + 1;
    }
    false
}

/// Groups the items: concrete impls of standard library traits for the same
/// type are condensed (ordered by their text) when there are two or more;
/// inherent impl blocks take the methods whose parent they are; everything
/// else, methods whose parent is no inherent impl block among them, stays on
/// its own. No item is lost.
pub fn group_impl_items(items: Vec<PublicItem>, crate_data: &CrateIndex) -> (groups: Vec<ItemGroup>)
    ensures
        groups@.map_values(|g: ItemGroup| g@) == core_grouped(crate_data@, views(items@)),
{
    let ghost cx = crate_data@;
    let ghost vs = views(items@);
    let ghost orig_items = items@;
    let mut places: Vec<PlacementExec> = Vec::new();
    let mut texts_all: Vec<Vec<char>> = Vec::new();
    let mut p: usize = 0;
    while p < items.len()
        invariant
            p <= items@.len(),
            vs == views(items@),
            cx == crate_data@,
            places@.len() == p,
            texts_all@.len() == p,
            forall|q: int| 0 <= q < p ==> (#[trigger] places@[q])@ == placement(cx, vs[q]),
            forall|q: int| 0 <= q < p ==> (#[trigger] texts_all@[q])@ == item_text(vs[q]),
        decreases items@.len() - p,
    {
        assert(vs[p as int] == items@[p as int]@);
        places.push(place(crate_data, &items[p]));
        texts_all.push(tokens_chars(&items[p].tokens));
        p = p + 1;
    }
    let mut keys: Vec<Vec<char>> = Vec::new();
    let mut members: Vec<Vec<PublicItem>> = Vec::new();
    let mut texts: Vec<Vec<Vec<char>>> = Vec::new();
    let mut blocks: Vec<PublicItem> = Vec::new();
    let mut method_slots: Vec<Option<PublicItem>> = Vec::new();
    let mut method_parents: Vec<u32> = Vec::new();
    let mut alone: Vec<PublicItem> = Vec::new();
    let mut i: usize = 0;
    for item in it: items
        invariant
            i == it.index(),
            it.seq() == orig_items,
            vs == views(orig_items),
            places@.len() == vs.len(),
            texts_all@.len() == vs.len(),
            forall|q: int| 0 <= q < vs.len() ==> (#[trigger] places@[q])@ == placement(cx, vs[q]),
            forall|q: int| 0 <= q < vs.len() ==> (#[trigger] texts_all@[q])@ == item_text(vs[q]),
            keys.deep_view() == trait_impl_keys(cx, vs.take(i as int)),
            members@.len() == keys@.len(),
            texts@.len() == keys@.len(),
            forall|g: int| 0 <= g < keys@.len() ==> views(#[trigger] members@[g]@) == with_impl_key(cx, vs.take(i as int), keys.deep_view()[g]),
            forall|g: int| 0 <= g < keys@.len() ==> (#[trigger] texts@[g])@.len() == members@[g]@.len(),
            forall|g: int, q: int| 0 <= g < keys@.len() && 0 <= q < members@[g]@.len() ==> (#[trigger] texts@[g]@[q])@ == item_text(members@[g]@[q]@),
            views(blocks@) == inherent_blocks(cx, vs.take(i as int)),
            method_slots@.len() == method_parents@.len(),
            method_slots@.len() == method_items(cx, vs.take(i as int)).len(),
            forall|q: int| 0 <= q < method_slots@.len() ==> ((#[trigger] method_slots@[q]) matches Some(m) && m@ == method_items(cx, vs.take(i as int))[q]),
            forall|q: int| 0 <= q < method_slots@.len() ==> method_items(cx, vs.take(i as int))[q].parent_id == Some(#[trigger] method_parents@[q]),
            views(alone@) == alone_items(cx, vs.take(i as int)),
    {
        let ghost prev = vs.take(i as int);
        let ghost next = vs.take(i + 1);
        assert(next.drop_last() =~= prev);
        assert(next.last() == item@);
        assert(vs[i as int] == item@);
        let n = places.len();
        assert(i < n);
        let ghost old_keys = keys.deep_view();
        let ghost old_members = members@;
        let ghost old_texts = texts@;
        proof {
            lemma_keys_distinct(cx, prev);
        }
        let ghost pl = placement(cx, item@);
        match &places[i] {
            PlacementExec::TraitImpl(key) => {
                let t = crate::text::copy_chars(&texts_all[i]);
                match key_index(&keys, key) {
                    Some(g) => {
                        assert(keys.deep_view()[g as int] == key@);
                        members[g].push(item);
                        texts[g].push(t);
                        proof {
                            assert(trait_impl_keys(cx, next) == old_keys);
                            assert forall|h: int| 0 <= h < keys@.len() implies views(#[trigger] members@[h]@) == with_impl_key(cx, next, keys.deep_view()[h]) by {
                                if h != g {
                                    assert(old_keys[h] != old_keys[g as int]);
                                    assert(members@[h] == old_members[h]);
                                } else {
                                    assert(views(members@[h]@) =~= views(old_members[h]@).push(item@));
                                }
                            }
                            assert forall|h: int, q: int| 0 <= h < keys@.len() && 0 <= q < members@[h]@.len() implies (#[trigger] texts@[h]@[q])@ == item_text(members@[h]@[q]@) by {
                                if h != g {
                                    assert(members@[h] == old_members[h]);
                                    assert(texts@[h] == old_texts[h]);
                                } else if q < old_members[h]@.len() {
                                    assert(members@[h]@[q] == old_members[h]@[q]);
                                    assert(texts@[h]@[q] == old_texts[h]@[q]);
                                }
                            }
                            assert forall|h: int| 0 <= h < keys@.len() implies (#[trigger] texts@[h])@.len() == members@[h]@.len() by {
                                if h != g {
                                    assert(members@[h] == old_members[h]);
                                    assert(texts@[h] == old_texts[h]);
                                }
                            }
                        }
                    },
                    None => {
                        let ghost kv = key@;
                        keys.push(crate::text::copy_chars(key));
                        members.push(vec![item]);
                        texts.push(vec![t]);
                        proof {
                            assert(keys.deep_view()[old_keys.len() as int] == kv);
                            assert(keys.deep_view() =~= old_keys.push(kv));
                            lemma_with_impl_key_empty(cx, prev, kv);
                            assert forall|h: int| 0 <= h < keys@.len() implies views(#[trigger] members@[h]@) == with_impl_key(cx, next, keys.deep_view()[h]) by {
                                if h < old_keys.len() {
                                    assert(old_keys[h] != kv);
                                    assert(members@[h] == old_members[h]);
                                } else {
                                    assert(views(members@[h]@) =~= seq![item@]);
                                    assert(with_impl_key(cx, next, kv) =~= seq![item@]);
                                }
                            }
                            assert forall|h: int, q: int| 0 <= h < keys@.len() && 0 <= q < members@[h]@.len() implies (#[trigger] texts@[h]@[q])@ == item_text(members@[h]@[q]@) by {
                                if h < old_keys.len() {
                                    assert(members@[h] == old_members[h]);
                                    assert(texts@[h] == old_texts[h]);
                                }
                            }
                            assert forall|h: int| 0 <= h < keys@.len() implies (#[trigger] texts@[h])@.len() == members@[h]@.len() by {
                                if h < old_keys.len() {
                                    assert(members@[h] == old_members[h]);
                                    assert(texts@[h] == old_texts[h]);
                                }
                            }
                        }
                    },
                }
            },
            PlacementExec::Inherent => {
                let ghost ob = blocks@;
                blocks.push(item);
                assert(views(blocks@) =~= views(ob).push(item@));
                assert(trait_impl_keys(cx, next) == trait_impl_keys(cx, prev));
                assert forall|h: int| 0 <= h < keys@.len() implies with_impl_key(cx, next, keys.deep_view()[h]) == with_impl_key(cx, prev, keys.deep_view()[h]) by {}
            },
            PlacementExec::Method(parent) => {
                let ghost os = method_slots@;
                method_slots.push(Some(item));
                method_parents.push(*parent);
                proof {
                    assert(method_items(cx, next) == method_items(cx, prev).push(item@));
                    assert forall|q: int| 0 <= q < method_slots@.len() implies ((#[trigger] method_slots@[q]) matches Some(m) && m@ == method_items(cx, next)[q]) by {
                        if q < os.len() {
                            assert(method_slots@[q] == os[q]);
                        }
                    }
                    assert(trait_impl_keys(cx, next) == trait_impl_keys(cx, prev));
                    assert forall|h: int| 0 <= h < keys@.len() implies with_impl_key(cx, next, keys.deep_view()[h]) == with_impl_key(cx, prev, keys.deep_view()[h]) by {}
                }
            },
            PlacementExec::Alone => {
                let ghost oa = alone@;
                alone.push(item);
                assert(views(alone@) =~= views(oa).push(item@));
                assert(trait_impl_keys(cx, next) == trait_impl_keys(cx, prev));
                assert forall|h: int| 0 <= h < keys@.len() implies with_impl_key(cx, next, keys.deep_view()[h]) == with_impl_key(cx, prev, keys.deep_view()[h]) by {}
            },
        }
        i = i + 1;
    }
    assert(vs.take(vs.len() as int) =~= vs);
    let ghost ks = keys.deep_view();
    let mut out: Vec<ItemGroup> = Vec::new();
    // The condensed std trait impls, type after type.
    let mut g: usize = 0;
    while g < keys.len()
        invariant
            ks == keys.deep_view(),
            ks == trait_impl_keys(cx, vs),
            g <= ks.len(),
            members@.len() == ks.len(),
            texts@.len() == ks.len(),
            forall|h: int| g <= h < ks.len() ==> views(#[trigger] members@[h]@) == with_impl_key(cx, vs, ks[h]),
            forall|h: int| g <= h < ks.len() ==> (#[trigger] texts@[h])@.len() == members@[h]@.len(),
            forall|h: int, q: int| g <= h < ks.len() && 0 <= q < members@[h]@.len() ==> (#[trigger] texts@[h]@[q])@ == item_text(members@[h]@[q]@),
            out@.map_values(|x: ItemGroup| x@) == trait_groups(cx, vs, ks.take(g as int)),
        decreases ks.len() - g,
    {
        assert(ks.take(g + 1).drop_last() =~= ks.take(g as int));
        assert(ks.take(g + 1).last() == ks[g as int]);
        let ghost old_members = members@;
        let ghost old_texts = texts@;
        let ghost w = with_impl_key(cx, vs, ks[g as int]);
        proof {
            assert(ks.contains(ks[g as int]));
            lemma_with_impl_key_nonempty(cx, vs, ks[g as int]);
        }
        let mut ms: Vec<PublicItem> = Vec::new();
        std::mem::swap(&mut ms, &mut members[g]);
        let mut ts: Vec<Vec<char>> = Vec::new();
        std::mem::swap(&mut ts, &mut texts[g]);
        assert(views(ms@) == w);
        let ghost before = out@.map_values(|x: ItemGroup| x@);
        if ms.len() > 1 {
            let sorted = sort_group(ms, ts, Ghost(OrderKey::Text));
            out.push(ItemGroup::TraitImplGroup { members: sorted });
        } else {
            let only = ms.pop();
            match only {
                Some(m) => {
                    assert(m@ == w[0]);
                    out.push(ItemGroup::Single(m));
                },
                None => {
                    assert(false);
                },
            }
        }
        assert(out@.map_values(|x: ItemGroup| x@) =~= before.push(trait_group(w)));
        proof {
            assert forall|h: int| g + 1 <= h < ks.len() implies views(#[trigger] members@[h]@) == with_impl_key(cx, vs, ks[h]) by {
                assert(members@[h] == old_members[h]);
            }
            assert forall|h: int| g + 1 <= h < ks.len() implies (#[trigger] texts@[h])@.len() == members@[h]@.len() by {
                assert(members@[h] == old_members[h]);
                assert(texts@[h] == old_texts[h]);
            }
            assert forall|h: int, q: int| g + 1 <= h < ks.len() && 0 <= q < members@[h]@.len() implies (#[trigger] texts@[h]@[q])@ == item_text(members@[h]@[q]@) by {
                assert(members@[h] == old_members[h]);
                assert(texts@[h] == old_texts[h]);
            }
        }
        g = g + 1;
    }
    assert(ks.take(ks.len() as int) =~= ks);
    // The inherent impl blocks, with their methods.
    let ghost mis = method_items(cx, vs);
    let ghost bs = inherent_blocks(cx, vs);
    let ghost start_blocks = blocks@;
    let ghost before_blocks = out@.map_values(|x: ItemGroup| x@);
    let mut seen: Vec<u32> = Vec::new();
    for b in bit: blocks
        invariant
            bit.seq() == start_blocks,
            views(start_blocks) == bs,
            mis == method_items(cx, vs),
            method_slots@.len() == mis.len(),
            method_parents@.len() == mis.len(),
            forall|q: int| 0 <= q < mis.len() ==> mis[q].parent_id == Some(#[trigger] method_parents@[q]),
            forall|q: int| 0 <= q < mis.len() ==> (#[trigger] method_slots@[q] matches Some(m) ==> m@ == mis[q]),
            forall|q: int| 0 <= q < mis.len() ==> ((#[trigger] method_slots@[q]) is Some <== !seen@.contains(method_parents@[q])),
            forall|x: u32| seen@.contains(x) <==> id_seen(bs.take(bit.index() as int), x),
            out@.map_values(|x: ItemGroup| x@) == before_blocks + block_groups(cx, vs, bs.take(bit.index() as int)),
    {
        let ghost k = bit.index() as int;
        let ghost earlier = bs.take(k);
        assert(bs.take(k + 1).drop_last() =~= earlier);
        assert(bs[k] == b@);
        assert(bs.take(k + 1).last() == b@);
        let ghost ob = out@.map_values(|x: ItemGroup| x@);
        let id = b.id();
        if has_id(&seen, id) {
            assert(id_seen(earlier, b@.id));
            out.push(ItemGroup::Single(b));
            assert(out@.map_values(|x: ItemGroup| x@) =~= ob.push(block_group(cx, vs, earlier, b@)));
        } else {
            assert(!id_seen(earlier, b@.id));
            let mut methods: Vec<PublicItem> = Vec::new();
            let mut q: usize = 0;
            while q < method_slots.len()
                invariant
                    q <= mis.len(),
                    method_slots@.len() == mis.len(),
                    method_parents@.len() == mis.len(),
                    forall|r: int| 0 <= r < mis.len() ==> mis[r].parent_id == Some(#[trigger] method_parents@[r]),
                    forall|r: int| 0 <= r < mis.len() ==> (#[trigger] method_slots@[r] matches Some(m) ==> m@ == mis[r]),
                    forall|r: int| q <= r < mis.len() ==> ((#[trigger] method_slots@[r]) is Some <== !seen@.contains(method_parents@[r])),
                    forall|r: int| 0 <= r < q ==> ((#[trigger] method_slots@[r]) is Some <== (!seen@.contains(method_parents@[r]) && method_parents@[r] != id)),
                    !seen@.contains(id),
                    views(methods@) == with_parent(mis.take(q as int), id),
                decreases mis.len() - q,
            {
                assert(mis.take(q + 1).drop_last() =~= mis.take(q as int));
                assert(mis.take(q + 1).last() == mis[q as int]);
                if method_parents[q] == id {
                    let mut slot: Option<PublicItem> = None;
                    std::mem::swap(&mut slot, &mut method_slots[q]);
                    match slot {
                        Some(m) => {
                            let ghost om = methods@;
                            methods.push(m);
                            assert(views(methods@) =~= views(om).push(mis[q as int]));
                        },
                        None => {
                            assert(false);
                        },
                    }
                }
                q = q + 1;
            }
            assert(mis.take(mis.len() as int) =~= mis);
            if methods.len() > 0 {
                out.push(ItemGroup::ImplWithMethods { impl_item: b, methods });
            } else {
                out.push(ItemGroup::Single(b));
            }
            assert(out@.map_values(|x: ItemGroup| x@) =~= ob.push(block_group(cx, vs, earlier, b@)));
        }
        let ghost old_seen = seen@;
        seen.push(id);
        proof {
            assert forall|x: u32| seen@.contains(x) <==> id_seen(bs.take(k + 1), x) by {
                if seen@.contains(x) {
                    let w = choose|w: int| 0 <= w < seen@.len() && seen@[w] == x;
                    if w < old_seen.len() {
                        assert(old_seen.contains(x));
                        let e = choose|e: int| 0 <= e < earlier.len() && earlier[e].id == x;
                        assert(bs.take(k + 1)[e] == earlier[e]);
                    } else {
                        assert(bs.take(k + 1)[k].id == x);
                    }
                }
                if id_seen(bs.take(k + 1), x) {
                    let tk = bs.take(k + 1);
                    let e = choose|e: int| 0 <= e < tk.len() && tk[e].id == x;
                    if e < k {
                        assert(earlier[e].id == x);
                        assert(old_seen.contains(x));
                        let w = choose|w: int| 0 <= w < old_seen.len() && old_seen[w] == x;
                        assert(seen@[w] == x);
                    } else {
                        assert(seen@[old_seen.len() as int] == x);
                    }
                }
            }
            assert forall|r: int| 0 <= r < mis.len() && !seen@.contains(method_parents@[r]) implies (#[trigger] method_slots@[r]) is Some by {
                assert(!old_seen.contains(method_parents@[r]));
                assert(method_parents@[r] != id);
            }
            assert(out@.map_values(|x: ItemGroup| x@) =~= before_blocks + block_groups(cx, vs, bs.take(k + 1)));
        }
    }
    assert(bs.take(bs.len() as int) =~= bs);
    // The methods whose parent is no inherent impl block, on their own.
    let ghost before_orphans = out@.map_values(|x: ItemGroup| x@);
    let mut r: usize = 0;
    assert(mis.take(0) =~= Seq::<ItemView>::empty());
    while r < method_slots.len()
        invariant
            r <= mis.len(),
            mis == method_items(cx, vs),
            bs == inherent_blocks(cx, vs),
            method_slots@.len() == mis.len(),
            method_parents@.len() == mis.len(),
            forall|q: int| 0 <= q < mis.len() ==> mis[q].parent_id == Some(#[trigger] method_parents@[q]),
            forall|q: int| r <= q < mis.len() ==> (#[trigger] method_slots@[q] matches Some(m) ==> m@ == mis[q]),
            forall|q: int| r <= q < mis.len() ==> ((#[trigger] method_slots@[q]) is Some <== !seen@.contains(method_parents@[q])),
            forall|x: u32| seen@.contains(x) <==> id_seen(bs, x),
            out@.map_values(|x: ItemGroup| x@) == before_orphans + orphan_methods(mis.take(r as int), bs).map_values(
                |v: ItemView| GroupView::Single(v),
            ),
        decreases mis.len() - r,
    {
        assert(mis.take(r + 1).drop_last() =~= mis.take(r as int));
        assert(mis.take(r + 1).last() == mis[r as int]);
        let ghost ob = out@.map_values(|x: ItemGroup| x@);
        let ghost prev_orph = orphan_methods(mis.take(r as int), bs);
        if !has_id(&seen, method_parents[r]) {
            let mut slot: Option<PublicItem> = None;
            std::mem::swap(&mut slot, &mut method_slots[r]);
            match slot {
                Some(m) => {
                    assert(m@ == mis[r as int]);
                    out.push(ItemGroup::Single(m));
                    proof {
                        assert(orphan_methods(mis.take(r + 1), bs) == prev_orph.push(mis[r as int]));
                        assert(out@.map_values(|x: ItemGroup| x@) =~= ob.push(GroupView::Single(mis[r as int])));
                        assert(prev_orph.push(mis[r as int]).map_values(|v: ItemView| GroupView::Single(v))
                            =~= prev_orph.map_values(|v: ItemView| GroupView::Single(v)).push(GroupView::Single(mis[r as int])));
                    }
                },
                None => {
                    assert(false);
                },
            }
        } else {
            assert(orphan_methods(mis.take(r + 1), bs) == prev_orph);
        }
        r = r + 1;
    }
    assert(mis.take(mis.len() as int) =~= mis);
    // The items on their own.
    let ghost before_alone = out@.map_values(|x: ItemGroup| x@);
    let ghost rest = alone@;
    let ghost al = alone_items(cx, vs);
    for m in ait: alone
        invariant
            ait.seq() == rest,
            views(rest) == al,
            out@.map_values(|x: ItemGroup| x@) == before_alone + al.take(ait.index() as int).map_values(|v: ItemView| GroupView::Single(v)),
    {
        let ghost k = ait.index() as int;
        assert(al[k] == m@);
        let ghost ob = out@.map_values(|x: ItemGroup| x@);
        out.push(ItemGroup::Single(m));
        proof {
            assert(out@.map_values(|x: ItemGroup| x@) =~= ob.push(GroupView::Single(al[k])));
            assert(al.take(k + 1) =~= al.take(k).push(al[k]));
            assert(al.take(k + 1).map_values(|v: ItemView| GroupView::Single(v)) =~= al.take(k).map_values(|v: ItemView| GroupView::Single(v)).push(GroupView::Single(al[k])));
        }
    }
    assert(al.take(al.len() as int) =~= al);
    out
}

// ---------------------------------------------------------------------------
// Rendering
// ---------------------------------------------------------------------------
/// The index of the character of `s` that starts at byte `b` of its UTF-8
/// encoding (the length of `s` when `b` is its byte length), if a character
/// starts there.
pub open spec fn char_at_byte(s: Seq<char>, b: int) -> Option<int>
    decreases s.len(),
{
    if b == 0 {
        Some(0)
    } else if b < 0 || s.len() == 0 {
        None
    } else {
        match char_at_byte(s.drop_first(), b - utf8_width(s[0])) {
            Some(m) => Some(m + 1),
            None => None,
        }
    }
}

/// The index of the character of `s` that starts at byte `b`, if one does.
fn char_index_at_byte(s: &[char], b: usize) -> (r: Option<usize>)
    ensures
        r matches Some(m) ==> char_at_byte(s@, b as int) == Some(m as int),
        r is None ==> char_at_byte(s@, b as int) is None,
{
    let mut i: usize = 0;
    let mut bytes: usize = 0;
    assert(s@.skip(0) =~= s@);
    while bytes < b && i < s.len()
        invariant
            i <= s@.len(),
            bytes <= b,
            char_at_byte(s@, b as int) == match char_at_byte(s@.skip(i as int), b - bytes) {
                Some(m) => Some(m + i),
                None => None::<int>,
            },
        decreases s@.len() - i,
    {
        let w = utf8_width_exec(s[i]);
        assert(s@.skip(i as int)[0] == s@[i as int]);
        assert(s@.skip(i as int).drop_first() =~= s@.skip(i + 1));
        if w > b - bytes {
            assert(char_at_byte(s@.skip(i + 1), b - bytes - w) is None);
            assert(char_at_byte(s@.skip(i as int), b - bytes) is None);
            return None;
        }
        bytes = bytes + w;
        i = i + 1;
    }
    if bytes == b {
        Some(i)
    } else {
        assert(s@.skip(i as int).len() == 0);
        None
    }
}

/// From index `i` with `depth` generic brackets open, the index of the `>`
/// that closes the outermost one (a `>` right after `-` is an arrow and
/// closes nothing).
pub open spec fn close_from(s: Seq<char>, i: int, depth: int) -> Option<int>
    decreases s.len() - i,
{
    if i < 0 || i >= s.len() {
        None
    } else if s[i] == '<' {
        close_from(s, i + 1, depth + 1)
    } else if s[i] == '>' && !(i > 0 && s[i - 1] == '-') {
        if depth <= 1 {
            Some(i)
        } else {
            close_from(s, i + 1, depth - 1)
        }
    } else {
        close_from(s, i + 1, depth)
    }
}

/// The index of the `>` that closes the first generic list of `s`.
pub open spec fn generics_close(s: Seq<char>) -> Option<int> {
    close_from(s, 0, 0)
}

/// The index of the `>` that closes the first generic list of `s`, if any.
fn generics_close_exec(s: &[char]) -> (r: Option<usize>)
    ensures
        r matches Some(c) ==> generics_close(s@) == Some(c as int) && c < s@.len(),
        r is None ==> generics_close(s@) is None,
{
    let mut i: usize = 0;
    let mut depth: usize = 0;
    while i < s.len()
        invariant
            i <= s@.len(),
            depth <= i,
            generics_close(s@) == close_from(s@, i as int, depth as int),
        decreases s@.len() - i,
    {
        if s[i] == '<' {
            depth = depth + 1;
        } else if s[i] == '>' && !(i > 0 && s[i - 1] == '-') {
            if depth <= 1 {
                return Some(i);
            }
            depth = depth - 1;
        }
        i = i + 1;
    }
    None
}

/// The trait of a condensed member's text `impl <generics> Trait<..> for T`,
/// where ` for ` is at `p`: the part after `impl`, without the leading
/// generic list (up to its matching `>`), trimmed, up to its first `<`.
pub open spec fn member_trait(text: Seq<char>, p: int) -> Seq<char> {
    let part0 = text.subrange(char_at_byte(text, 4).unwrap(), p);
    let part1 = if starts_with(trim_start(part0), seq!['<']) {
        match generics_close(part0) {
            Some(c) => part0.skip(c + 1),
            None => part0,
        }
    } else {
        part0
    };
    let part = trim(part1);
    match find(part, seq!['<']) {
        Some(a) => trim(part.take(a)),
        None => part,
    }
}

/// The type of a condensed member's text, after ` for ` at `p`: up to
/// ` where`, or else without trailing `;`, trimmed.
pub open spec fn member_type(text: Seq<char>, p: int) -> Seq<char> {
    let after = text.skip(p + 5);
    trim(
        match find(after, where_sep()) {
            Some(w) => after.take(w),
            None => trim_end_char(after, ';'),
        },
    )
}

/// The non-empty trait names of the members with ` for `, in order.
pub open spec fn rendered_traits(ms: Seq<ItemView>) -> Seq<Seq<char>>
    decreases ms.len(),
{
    if ms.len() == 0 {
        seq![]
    } else {
        let r = rendered_traits(ms.drop_last());
        let text = item_text(ms.last());
        match find(text, for_sep()) {
            Some(p) => if member_trait(text, p).len() > 0 {
                r.push(member_trait(text, p))
            } else {
                r
            },
            None => r,
        }
    }
}

/// The type of the first member with ` for `, if any.
pub open spec fn first_for_type(ms: Seq<ItemView>) -> Option<Seq<char>>
    decreases ms.len(),
{
    if ms.len() == 0 {
        None
    } else {
        let text = item_text(ms[0]);
        match find(text, for_sep()) {
            Some(p) => Some(member_type(text, p)),
            None => first_for_type(ms.drop_first()),
        }
    }
}

/// The line of a condensed group before shortening: `impl A + B for T`, or
/// the first member's text when no member has ` for `.
pub open spec fn trait_group_text(ms: Seq<ItemView>) -> Seq<char> {
    match first_for_type(ms) {
        Some(ty) => condensed_impl(rendered_traits(ms), ty),
        None => item_text(ms[0]),
    }
}

/// A member's text can be cut after `impl`: where it has ` for `, a
/// character starts at byte 4 of the text, no later than ` for `.
pub open spec fn member_cuttable(m: ItemView) -> bool {
    let text = item_text(m);
    find(text, for_sep()) matches Some(p) ==> (char_at_byte(text, 4) matches Some(c) && c <= p)
}

/// Renders a condensed group of trait impls, with paths shortened; empty for
/// no members.
pub fn render_trait_impl_group(members: &[PublicItem], namespace_mgr: &NamespaceManager) -> (r: String)
    requires
        namespace_mgr.wf(),
        forall|i: int| 0 <= i < members@.len() ==> member_cuttable(#[trigger] members@[i]@),
    ensures
        members@.len() == 0 ==> r@ == Seq::<char>::empty(),
        members@.len() > 0 ==> r@ == apply_shortenings(
            trait_group_text(views(members@)),
            longest_first(namespace_mgr.shortened()),
        ),
{
    if members.len() == 0 {
        return String::new();
    }
    let ghost ms = views(members@);
    let mut traits: Vec<Vec<char>> = Vec::new();
    let mut for_type: Option<Vec<char>> = None;
    let for_sep_v = vec![' ', 'f', 'o', 'r', ' '];
    let where_sep_v = vec![' ', 'w', 'h', 'e', 'r', 'e'];
    let lt = vec!['<'];
    let gt = vec!['>'];
    let mut i: usize = 0;
    assert(ms.skip(0) =~= ms);
    assert(traits.deep_view() =~= rendered_traits(ms.take(0)));
    while i < members.len()
        invariant
            i <= ms.len(),
            ms == views(members@),
            ms.len() > 0,
            for_sep_v@ == for_sep(),
            where_sep_v@ == where_sep(),
            lt@ == seq!['<'],
            gt@ == seq!['>'],
            forall|q: int| 0 <= q < ms.len() ==> member_cuttable(#[trigger] ms[q]),
            traits.deep_view() == rendered_traits(ms.take(i as int)),
            match for_type {
                Some(t) => first_for_type(ms) == Some(t@),
                None => first_for_type(ms) == first_for_type(ms.skip(i as int)),
            },
        decreases ms.len() - i,
    {
        assert(ms[i as int] == members@[i as int]@);
        assert(member_cuttable(ms[i as int]));
        assert(ms.take(i + 1).drop_last() =~= ms.take(i as int));
        assert(ms.take(i + 1).last() == ms[i as int]);
        assert(ms.skip(i as int)[0] == ms[i as int]);
        assert(ms.skip(i as int).drop_first() =~= ms.skip(i + 1));
        let text = tokens_chars(&members[i].tokens);
        assert(text@ == item_text(ms[i as int]));
        match find_exec(&text, &for_sep_v) {
            Some(for_pos) => {
                proof {
                    crate::text::lemma_find_from(text@, for_sep(), 0);
                }
                let n = text.len();
                assert(for_pos + 5 <= n);
                // the trait
                let start = match char_index_at_byte(&text, 4) {
                    Some(c) => c,
                    None => {
                        assert(false);
                        0
                    },
                };
                assert(start <= for_pos);
                let part0 = subrange(&text, start, for_pos);
                let lead = trim_start_exec(&part0);
                let part1 = if starts_with_exec(&lead, &lt) {
                    match generics_close_exec(&part0) {
                        Some(c) => {
                            let r = subrange(&part0, c + 1, part0.len());
                            assert(r@ =~= part0@.skip(c + 1));
                            r
                        },
                        None => part0,
                    }
                } else {
                    part0
                };
                let part = trim_exec(&part1);
                let name = match find_exec(&part, &lt) {
                    Some(a) => {
                        proof {
                            crate::text::lemma_find_from(part@, seq!['<'], 0);
                        }
                        let head = subrange(&part, 0, a);
                        assert(head@ =~= part@.take(a as int));
                        trim_exec(&head)
                    },
                    None => part,
                };
                assert(name@ == member_trait(text@, for_pos as int));
                if name.len() > 0 {
                    let ghost tb = traits.deep_view();
                    let ghost nv = name@;
                    traits.push(name);
                    assert(traits.deep_view()[tb.len() as int] == nv);
                    assert(traits.deep_view() =~= tb.push(nv));
                }
                // the type, from the first member with ` for `
                if for_type.is_none() {
                    let after = subrange(&text, for_pos + 5, n);
                    assert(after@ =~= text@.skip(for_pos + 5));
                    let type_part = match find_exec(&after, &where_sep_v) {
                        Some(w) => {
                            proof {
                                crate::text::lemma_find_from(after@, where_sep(), 0);
                            }
                            let h = subrange(&after, 0, w);
                            assert(h@ =~= after@.take(w as int));
                            h
                        },
                        None => trim_end_char_exec(&after, ';'),
                    };
                    let ty = trim_exec(&type_part);
                    assert(ty@ == member_type(text@, for_pos as int));
                    for_type = Some(ty);
                }
            },
            None => {},
        }
        i = i + 1;
    }
    assert(ms.take(ms.len() as int) =~= ms);
    match for_type {
        Some(ty) => {
            let mut line: Vec<char> = vec!['i', 'm', 'p', 'l', ' '];
            push_all(&mut line, &join_exec(&traits, &[' ', '+', ' ']));
            push_all(&mut line, &[' ', 'f', 'o', 'r', ' ']);
            push_all(&mut line, &ty);
            assert(line@ =~= trait_group_text(ms));
            namespace_mgr.shorten_text(string_of(&line).as_str())
        },
        None => {
            assert(ms.skip(ms.len() as int).len() == 0);
            assert(first_for_type(ms) is None);
            assert(ms[0] == members@[0]@);
            namespace_mgr.shorten_text(members[0].to_string().as_str())
        },
    }
}

/// `s` without leading whitespace.
fn trim_start_exec(s: &[char]) -> (r: Vec<char>)
    ensures
        r@ == trim_start(s@),
{
    let mut a: usize = 0;
    assert(s@.skip(0) =~= s@);
    while a < s.len() && crate::text::is_whitespace(s[a])
        invariant
            a <= s@.len(),
            trim_start(s@) == trim_start(s@.skip(a as int)),
        decreases s@.len() - a,
    {
        assert(s@.skip(a as int).drop_first() =~= s@.skip(a + 1));
        a = a + 1;
    }
    let r = subrange(s, a, s.len());
    assert(r@ =~= s@.skip(a as int));
    r
}

/// The lines of the methods in an impl block body: each as
/// `    <method>;` and a newline.
pub open spec fn method_lines(ls: Seq<Seq<char>>) -> Seq<char>
    decreases ls.len(),
{
    if ls.len() == 0 {
        seq![]
    } else {
        method_lines(ls.drop_last()) + seq![' ', ' ', ' ', ' '] + trim_end_char(ls.last(), ';')
            + seq![';', '\n']
    }
}

/// The texts of the items, shortened.
pub open spec fn shortened_texts(ms: Seq<ItemView>, short: Seq<Seq<char>>) -> Seq<Seq<char>> {
    ms.map_values(|m: ItemView| apply_shortenings(item_text(m), longest_first(short)))
}

/// The text of an impl block with its methods, paths shortened: the impl
/// line alone for no methods; else the impl line without its `;`, then ` {`,
/// a line per method, and `}`.
pub open spec fn impl_block_text(impl_item: ItemView, methods: Seq<ItemView>, short: Seq<Seq<char>>) -> Seq<char> {
    let line = apply_shortenings(item_text(impl_item), longest_first(short));
    if methods.len() == 0 {
        line
    } else {
        trim_end_char(line, ';') + seq![' ', '{', '\n'] + method_lines(shortened_texts(methods, short))
            + seq!['}']
    }
}

/// Renders an impl block with its methods, with paths shortened:
/// the impl line alone for no methods, else
/// `impl Foo {` / `    fn bar();` ... / `}`.
pub fn render_impl_with_methods(
    impl_item: &PublicItem,
    methods: &[PublicItem],
    namespace_mgr: &NamespaceManager,
) -> (r: String)
    requires
        namespace_mgr.wf(),
    ensures
        r@ == impl_block_text(impl_item@, views(methods@), namespace_mgr.shortened()),
{
    let impl_line = namespace_mgr.shorten_text(impl_item.to_string().as_str());
    if methods.len() == 0 {
        return impl_line;
    }
    let ghost short = namespace_mgr.shortened();
    let ghost ls = shortened_texts(views(methods@), short);
    let mut result = trim_end_char_exec(&chars_of(impl_line.as_str()), ';');
    push_all(&mut result, &[' ', '{', '\n']);
    let ghost head = result@;
    let mut i: usize = 0;
    while i < methods.len()
        invariant
            i <= methods@.len(),
            namespace_mgr.wf(),
            short == namespace_mgr.shortened(),
            ls == shortened_texts(views(methods@), short),
            result@ == head + method_lines(ls.take(i as int)),
        decreases methods@.len() - i,
    {
        let method_str = namespace_mgr.shorten_text(methods[i].to_string().as_str());
        assert(method_str@ == ls[i as int]);
        assert(ls.take(i + 1).drop_last() =~= ls.take(i as int));
        push_all(&mut result, &[' ', ' ', ' ', ' ']);
        push_all(&mut result, &trim_end_char_exec(&chars_of(method_str.as_str()), ';'));
        push_all(&mut result, &[';', '\n']);
        i = i + 1;
        assert(result@ =~= head + method_lines(ls.take(i as int)));
    }
    assert(ls.take(methods@.len() as int) =~= ls);
    result.push('}');
    string_of(&result)
}


// ---------------------------------------------------------------------------
// What every grouping is made of
// ---------------------------------------------------------------------------
/// A group as the grouping of `items` makes it: a single is one of the items;
/// a condensed group holds all the concrete std trait impls for one type, two
/// or more, ordered by text; an impl block with methods is one of the
/// inherent impl blocks, with one or more of the items whose parent it is.
pub open spec fn core_well_grouped(cx: IndexView, g: GroupView, items: Seq<ItemView>) -> bool {
    match g {
        GroupView::Single(it) => items.contains(it),
        GroupView::TraitImplGroup { members } => {
            &&& members.len() >= 2
            &&& placement(cx, members[0]) is TraitImpl
            &&& members.len() == with_impl_key(cx, items, placement(cx, members[0])->TraitImpl_0).len()
            &&& ordered_by(members, OrderKey::Text)
            &&& forall|j: int|
                0 <= j < members.len() ==> items.contains(#[trigger] members[j]) && placement(cx, members[j])
                    == placement(cx, members[0])
        },
        GroupView::ImplWithMethods { impl_item, methods } => {
            &&& items.contains(impl_item)
            &&& placement(cx, impl_item) is Inherent
            &&& methods.len() > 0
            &&& forall|j: int|
                0 <= j < methods.len() ==> items.contains(#[trigger] methods[j]) && placement(cx, methods[j]) is Method
                    && methods[j].parent_id == Some(impl_item.id)
        },
    }
}

proof fn lemma_with_impl_key_items(cx: IndexView, items: Seq<ItemView>, k: Seq<char>)
    ensures
        forall|j: int|
            0 <= j < with_impl_key(cx, items, k).len() ==> items.contains(#[trigger] with_impl_key(cx, items, k)[j])
                && placement(cx, with_impl_key(cx, items, k)[j]) == Placement::TraitImpl(k),
    decreases items.len(),
{
    if items.len() > 0 {
        let p = items.drop_last();
        lemma_with_impl_key_items(cx, p, k);
        let w0 = with_impl_key(cx, p, k);
        let w = with_impl_key(cx, items, k);
        assert forall|j: int| 0 <= j < w.len() implies items.contains(#[trigger] w[j]) && placement(cx, w[j])
            == Placement::TraitImpl(k) by {
            if j < w0.len() {
                assert(w[j] == w0[j]);
                let q = choose|q: int| 0 <= q < p.len() && p[q] == w0[j];
                assert(items[q] == w0[j]);
            } else {
                assert(w[j] == items.last());
                assert(items[items.len() - 1] == items.last());
            }
        }
    }
}

proof fn lemma_trait_groups_well(cx: IndexView, items: Seq<ItemView>, ks: Seq<Seq<char>>)
    requires
        forall|i: int| 0 <= i < ks.len() ==> trait_impl_keys(cx, items).contains(#[trigger] ks[i]),
    ensures
        forall|i: int|
            0 <= i < trait_groups(cx, items, ks).len() ==> core_well_grouped(
                cx,
                #[trigger] trait_groups(cx, items, ks)[i],
                items,
            ),
    decreases ks.len(),
{
    broadcast use {vstd::seq_lib::group_to_multiset_ensures, vstd::multiset::group_multiset_axioms};

    if ks.len() > 0 {
        let k = ks.last();
        assert(trait_impl_keys(cx, items).contains(ks[ks.len() - 1]));
        assert forall|i: int| 0 <= i < ks.drop_last().len() implies trait_impl_keys(cx, items).contains(
            #[trigger] ks.drop_last()[i],
        ) by {
            assert(ks.drop_last()[i] == ks[i]);
        }
        lemma_trait_groups_well(cx, items, ks.drop_last());
        let w = with_impl_key(cx, items, k);
        lemma_with_impl_key_nonempty(cx, items, k);
        lemma_with_impl_key_items(cx, items, k);
        let g = trait_group(w);
        if w.len() > 1 {
            let s = sort_ordered(w, OrderKey::Text);
            lemma_sort_multiset(w, OrderKey::Text);
            lemma_sort_ordered(w, OrderKey::Text);
            lemma_sort_len(w, OrderKey::Text);
            assert forall|j: int| 0 <= j < s.len() implies items.contains(#[trigger] s[j]) && placement(cx, s[j])
                == Placement::TraitImpl(k) by {
                assert(s.to_multiset().count(s[j]) > 0);
                assert(w.to_multiset().count(s[j]) > 0);
                let q = choose|q: int| 0 <= q < w.len() && w[q] == s[j];
            }
            assert(s[0] == s[0]);
            assert(placement(cx, s[0]) == Placement::TraitImpl(k));
            assert(core_well_grouped(cx, g, items));
        } else {
            assert(w[0] == w[0]);
            assert(core_well_grouped(cx, g, items));
        }
        let t = trait_groups(cx, items, ks);
        assert forall|i: int| 0 <= i < t.len() implies core_well_grouped(cx, #[trigger] t[i], items) by {
            if i < t.len() - 1 {
                assert(t[i] == trait_groups(cx, items, ks.drop_last())[i]);
            }
        }
    }
}

proof fn lemma_inherent_blocks_items(cx: IndexView, items: Seq<ItemView>)
    ensures
        forall|j: int|
            0 <= j < inherent_blocks(cx, items).len() ==> items.contains(#[trigger] inherent_blocks(cx, items)[j])
                && placement(cx, inherent_blocks(cx, items)[j]) is Inherent,
    decreases items.len(),
{
    if items.len() > 0 {
        let p = items.drop_last();
        lemma_inherent_blocks_items(cx, p);
        let r0 = inherent_blocks(cx, p);
        let r = inherent_blocks(cx, items);
        assert forall|j: int| 0 <= j < r.len() implies items.contains(#[trigger] r[j]) && placement(cx, r[j]) is Inherent by {
            if j < r0.len() {
                assert(r[j] == r0[j]);
                let q = choose|q: int| 0 <= q < p.len() && p[q] == r0[j];
                assert(items[q] == r0[j]);
            } else {
                assert(items[items.len() - 1] == items.last());
            }
        }
    }
}

proof fn lemma_method_items_items(cx: IndexView, items: Seq<ItemView>)
    ensures
        forall|j: int|
            0 <= j < method_items(cx, items).len() ==> items.contains(#[trigger] method_items(cx, items)[j])
                && placement(cx, method_items(cx, items)[j]) is Method,
    decreases items.len(),
{
    if items.len() > 0 {
        let p = items.drop_last();
        lemma_method_items_items(cx, p);
        let r0 = method_items(cx, p);
        let r = method_items(cx, items);
        assert forall|j: int| 0 <= j < r.len() implies items.contains(#[trigger] r[j]) && placement(cx, r[j]) is Method by {
            if j < r0.len() {
                assert(r[j] == r0[j]);
                let q = choose|q: int| 0 <= q < p.len() && p[q] == r0[j];
                assert(items[q] == r0[j]);
            } else {
                assert(items[items.len() - 1] == items.last());
            }
        }
    }
}

proof fn lemma_with_parent_items(ms: Seq<ItemView>, id: u32)
    ensures
        forall|j: int|
            0 <= j < with_parent(ms, id).len() ==> ms.contains(#[trigger] with_parent(ms, id)[j])
                && with_parent(ms, id)[j].parent_id == Some(id),
    decreases ms.len(),
{
    if ms.len() > 0 {
        let p = ms.drop_last();
        lemma_with_parent_items(p, id);
        let r0 = with_parent(p, id);
        let r = with_parent(ms, id);
        assert forall|j: int| 0 <= j < r.len() implies ms.contains(#[trigger] r[j]) && r[j].parent_id == Some(id) by {
            if j < r0.len() {
                assert(r[j] == r0[j]);
                let q = choose|q: int| 0 <= q < p.len() && p[q] == r0[j];
                assert(ms[q] == r0[j]);
            } else {
                assert(ms[ms.len() - 1] == ms.last());
            }
        }
    }
}

proof fn lemma_block_groups_well(cx: IndexView, items: Seq<ItemView>, bs: Seq<ItemView>)
    requires
        forall|j: int| 0 <= j < bs.len() ==> items.contains(#[trigger] bs[j]) && placement(cx, bs[j]) is Inherent,
    ensures
        forall|i: int|
            0 <= i < block_groups(cx, items, bs).len() ==> core_well_grouped(
                cx,
                #[trigger] block_groups(cx, items, bs)[i],
                items,
            ),
    decreases bs.len(),
{
    if bs.len() > 0 {
        let b = bs.last();
        assert(bs[bs.len() - 1] == b);
        lemma_block_groups_well(cx, items, bs.drop_last());
        let mis = method_items(cx, items);
        lemma_method_items_items(cx, items);
        lemma_with_parent_items(mis, b.id);
        let ms = with_parent(mis, b.id);
        assert forall|j: int| 0 <= j < ms.len() implies items.contains(#[trigger] ms[j]) && placement(cx, ms[j]) is Method
            && ms[j].parent_id == Some(b.id) by {
            let q = choose|q: int| 0 <= q < mis.len() && mis[q] == ms[j];
        }
        assert(core_well_grouped(cx, block_group(cx, items, bs.drop_last(), b), items));
        let t = block_groups(cx, items, bs);
        assert forall|i: int| 0 <= i < t.len() implies core_well_grouped(cx, #[trigger] t[i], items) by {
            if i < t.len() - 1 {
                assert(t[i] == block_groups(cx, items, bs.drop_last())[i]);
            }
        }
    }
}

proof fn lemma_alone_items_in(cx: IndexView, items: Seq<ItemView>)
    ensures
        forall|j: int| 0 <= j < alone_items(cx, items).len() ==> items.contains(#[trigger] alone_items(cx, items)[j]),
    decreases items.len(),
{
    if items.len() > 0 {
        let p = items.drop_last();
        lemma_alone_items_in(cx, p);
        let r0 = alone_items(cx, p);
        let r = alone_items(cx, items);
        assert forall|j: int| 0 <= j < r.len() implies items.contains(#[trigger] r[j]) by {
            if j < r0.len() {
                assert(r[j] == r0[j]);
                let q = choose|q: int| 0 <= q < p.len() && p[q] == r0[j];
                assert(items[q] == r0[j]);
            } else {
                assert(items[items.len() - 1] == items.last());
            }
        }
    }
}

/// Every group of a grouping is well formed: a single is one of the items; a
/// condensed group holds every concrete impl of a standard library trait for
/// one type, two or more, ordered by text; an impl block with methods is an
/// inherent impl block of the items with one or more items whose parent it is.
pub proof fn lemma_core_groups_well_formed(cx: IndexView, items: Seq<ItemView>)
    ensures
        forall|i: int|
            0 <= i < core_grouped(cx, items).len() ==> core_well_grouped(cx, #[trigger] core_grouped(cx, items)[i], items),
{
    let ks = trait_impl_keys(cx, items);
    let a = trait_groups(cx, items, ks);
    let bs = inherent_blocks(cx, items);
    let b = block_groups(cx, items, bs);
    let om = orphan_methods(method_items(cx, items), bs);
    let o = om.map_values(|m: ItemView| GroupView::Single(m));
    let al = alone_items(cx, items);
    let c = al.map_values(|m: ItemView| GroupView::Single(m));
    lemma_trait_groups_well(cx, items, ks);
    lemma_inherent_blocks_items(cx, items);
    lemma_block_groups_well(cx, items, bs);
    lemma_alone_items_in(cx, items);
    lemma_method_items_items(cx, items);
    lemma_orphans_in(method_items(cx, items), bs);
    let g = core_grouped(cx, items);
    assert forall|i: int| 0 <= i < g.len() implies core_well_grouped(cx, #[trigger] g[i], items) by {
        if i < a.len() {
            assert(g[i] == a[i]);
        } else if i < a.len() + b.len() {
            assert(g[i] == b[i - a.len()]);
        } else if i < a.len() + b.len() + o.len() {
            let j = i - a.len() - b.len();
            assert(g[i] == o[j]);
            assert(o[j] == GroupView::Single(om[j]));
            let q = choose|q: int| 0 <= q < method_items(cx, items).len() && method_items(cx, items)[q] == om[j];
        } else {
            assert(g[i] == c[i - a.len() - b.len() - o.len()]);
            assert(c[i - a.len() - b.len() - o.len()] == GroupView::Single(al[i - a.len() - b.len() - o.len()]));
        }
    }
}

proof fn lemma_orphans_in(mis: Seq<ItemView>, bs: Seq<ItemView>)
    ensures
        forall|j: int| 0 <= j < orphan_methods(mis, bs).len() ==> mis.contains(#[trigger] orphan_methods(mis, bs)[j]),
    decreases mis.len(),
{
    if mis.len() > 0 {
        let p = mis.drop_last();
        lemma_orphans_in(p, bs);
        let r0 = orphan_methods(p, bs);
        let r = orphan_methods(mis, bs);
        assert forall|j: int| 0 <= j < r.len() implies mis.contains(#[trigger] r[j]) by {
            if j < r0.len() {
                assert(r[j] == r0[j]);
                let q = choose|q: int| 0 <= q < p.len() && p[q] == r0[j];
                assert(mis[q] == r0[j]);
            } else {
                assert(mis[mis.len() - 1] == mis.last());
            }
        }
    }
}

/// Every concrete standard library trait impl among the items that shares
/// its type with another can be cut after `impl` when it is condensed.
pub open spec fn condensed_cuttable(cx: IndexView, items: Seq<ItemView>) -> bool {
    forall|i: int|
        0 <= i < items.len() && (#[trigger] placement(cx, items[i])) is TraitImpl && with_impl_key(
            cx,
            items,
            placement(cx, items[i])->TraitImpl_0,
        ).len() > 1 ==> member_cuttable(items[i])
}

/// Whether the item's text can be cut after `impl`, as `member_cuttable` says.
fn member_cuttable_exec(item: &PublicItem) -> (b: bool)
    ensures
        b == member_cuttable(item@),
{
    let text = tokens_chars(&item.tokens);
    assert(text@ == item_text(item@));
    let for_sep_v = vec![' ', 'f', 'o', 'r', ' '];
    assert(for_sep_v@ == for_sep());
    match find_exec(&text, &for_sep_v) {
        Some(p) => match char_index_at_byte(&text, 4) {
            Some(c) => c <= p,
            None => false,
        },
        None => true,
    }
}

/// Whether `condensed_cuttable` holds of the items: every concrete impl of a
/// standard library trait that shares its type with another can be cut after
/// `impl`.
pub fn all_condensed_cuttable(items: &Vec<PublicItem>, crate_data: &CrateIndex) -> (b: bool)
    ensures
        b == condensed_cuttable(crate_data@, views(items@)),
{
    let ghost cx = crate_data@;
    let ghost vs = views(items@);
    let mut places: Vec<PlacementExec> = Vec::new();
    let mut p: usize = 0;
    while p < items.len()
        invariant
            p <= items@.len(),
            vs == views(items@),
            cx == crate_data@,
            places@.len() == p,
            forall|q: int| 0 <= q < p ==> (#[trigger] places@[q])@ == placement(cx, vs[q]),
        decreases items@.len() - p,
    {
        assert(vs[p as int] == items@[p as int]@);
        places.push(place(crate_data, &items[p]));
        p = p + 1;
    }
    let mut i: usize = 0;
    while i < items.len()
        invariant
            i <= items@.len(),
            vs == views(items@),
            cx == crate_data@,
            places@.len() == vs.len(),
            forall|q: int| 0 <= q < vs.len() ==> (#[trigger] places@[q])@ == placement(cx, vs[q]),
            forall|q: int|
                0 <= q < i && (#[trigger] placement(cx, vs[q])) is TraitImpl && with_impl_key(
                    cx,
                    vs,
                    placement(cx, vs[q])->TraitImpl_0,
                ).len() > 1 ==> member_cuttable(vs[q]),
        decreases items@.len() - i,
    {
        assert(vs[i as int] == items@[i as int]@);
        if let PlacementExec::TraitImpl(k) = &places[i] {
            let mut count: usize = 0;
            let mut j: usize = 0;
            while j < places.len()
                invariant
                    j <= vs.len(),
                    places@.len() == vs.len(),
                    forall|q: int| 0 <= q < vs.len() ==> (#[trigger] places@[q])@ == placement(cx, vs[q]),
                    count == with_impl_key(cx, vs.take(j as int), k@).len(),
                    count <= j,
                decreases vs.len() - j,
            {
                assert(vs.take(j + 1).drop_last() =~= vs.take(j as int));
                assert(vs.take(j + 1).last() == vs[j as int]);
                if let PlacementExec::TraitImpl(k2) = &places[j] {
                    if chars_eq(k2, k) {
                        count = count + 1;
                    }
                }
                j = j + 1;
            }
            assert(vs.take(vs.len() as int) =~= vs);
            if count > 1 && !member_cuttable_exec(&items[i]) {
                assert(placement(cx, vs[i as int]) == Placement::TraitImpl(k@));
                assert(with_impl_key(cx, vs, placement(cx, vs[i as int])->TraitImpl_0).len() > 1);
                assert(!member_cuttable(vs[i as int]));
                return false;
            }
        }
        i = i + 1;
    }
    true
}


// ---------------------------------------------------------------------------
// What every grouping keeps
// ---------------------------------------------------------------------------
/// The items of a group: the item of a single; the members of a condensed
/// group; an impl block followed by its methods.
pub open spec fn core_group_items(g: GroupView) -> Seq<ItemView> {
    match g {
        GroupView::Single(it) => seq![it],
        GroupView::TraitImplGroup { members } => members,
        GroupView::ImplWithMethods { impl_item, methods } => seq![impl_item] + methods,
    }
}

/// The items of the groups, group after group.
pub open spec fn core_flatten(gs: Seq<GroupView>) -> Seq<ItemView>
    decreases gs.len(),
{
    if gs.len() == 0 {
        seq![]
    } else {
        core_flatten(gs.drop_last()) + core_group_items(gs.last())
    }
}

/// The concrete std trait impls, in order.
pub open spec fn trait_impl_items(cx: IndexView, items: Seq<ItemView>) -> Seq<ItemView>
    decreases items.len(),
{
    if items.len() == 0 {
        seq![]
    } else {
        let r = trait_impl_items(cx, items.drop_last());
        if placement(cx, items.last()) is TraitImpl {
            r.push(items.last())
        } else {
            r
        }
    }
}

/// The concrete std trait impls of the types `ks`, type after type.
pub open spec fn keyed_impls(cx: IndexView, items: Seq<ItemView>, ks: Seq<Seq<char>>) -> Seq<ItemView>
    decreases ks.len(),
{
    if ks.len() == 0 {
        seq![]
    } else {
        keyed_impls(cx, items, ks.drop_last()) + with_impl_key(cx, items, ks.last())
    }
}

/// The methods of `mis` whose parent is the first of the blocks `bs` with its
/// id, block after block.
pub open spec fn first_methods(mis: Seq<ItemView>, bs: Seq<ItemView>) -> Seq<ItemView>
    decreases bs.len(),
{
    if bs.len() == 0 {
        seq![]
    } else {
        first_methods(mis, bs.drop_last()) + if !id_seen(bs.drop_last(), bs.last().id) {
            with_parent(mis, bs.last().id)
        } else {
            seq![]
        }
    }
}

proof fn lemma_core_flatten_append(a: Seq<GroupView>, b: Seq<GroupView>)
    ensures
        core_flatten(a + b) == core_flatten(a) + core_flatten(b),
    decreases b.len(),
{
    if b.len() == 0 {
        assert(a + b =~= a);
        assert(core_flatten(a) + seq![] =~= core_flatten(a));
    } else {
        assert((a + b).drop_last() =~= a + b.drop_last());
        lemma_core_flatten_append(a, b.drop_last());
        assert(core_flatten(a) + core_flatten(b.drop_last()) + core_group_items(b.last()) =~= core_flatten(a) + (
        core_flatten(b.drop_last()) + core_group_items(b.last())));
    }
}

proof fn lemma_core_flatten_singles(s: Seq<ItemView>)
    ensures
        core_flatten(s.map_values(|m: ItemView| GroupView::Single(m))) == s,
    decreases s.len(),
{
    let g = s.map_values(|m: ItemView| GroupView::Single(m));
    if s.len() == 0 {
        assert(s =~= seq![]);
    } else {
        lemma_core_flatten_singles(s.drop_last());
        assert(g.drop_last() =~= s.drop_last().map_values(|m: ItemView| GroupView::Single(m)));
        assert(g.last() == GroupView::Single(s.last()));
        assert(s.drop_last() + seq![s.last()] =~= s);
    }
}

proof fn lemma_trait_groups_items(cx: IndexView, items: Seq<ItemView>, ks: Seq<Seq<char>>)
    requires
        forall|i: int| 0 <= i < ks.len() ==> trait_impl_keys(cx, items).contains(#[trigger] ks[i]),
    ensures
        core_flatten(trait_groups(cx, items, ks)).to_multiset() == keyed_impls(cx, items, ks).to_multiset(),
    decreases ks.len(),
{
    broadcast use {vstd::seq_lib::group_to_multiset_ensures, vstd::multiset::group_multiset_axioms, vstd::seq_lib::lemma_multiset_commutative};

    if ks.len() > 0 {
        let k = ks.last();
        assert(trait_impl_keys(cx, items).contains(ks[ks.len() - 1]));
        assert forall|i: int| 0 <= i < ks.drop_last().len() implies trait_impl_keys(cx, items).contains(
            #[trigger] ks.drop_last()[i],
        ) by {
            assert(ks.drop_last()[i] == ks[i]);
        }
        lemma_trait_groups_items(cx, items, ks.drop_last());
        let w = with_impl_key(cx, items, k);
        lemma_with_impl_key_nonempty(cx, items, k);
        let t = trait_groups(cx, items, ks);
        assert(t.drop_last() =~= trait_groups(cx, items, ks.drop_last()));
        if w.len() > 1 {
            lemma_sort_multiset(w, OrderKey::Text);
        } else {
            assert(core_group_items(trait_group(w)) =~= w);
        }
        assert(core_flatten(t).to_multiset() =~= keyed_impls(cx, items, ks).to_multiset());
    }
}

proof fn lemma_keyed_impls_push(cx: IndexView, p: Seq<ItemView>, x: ItemView, ks: Seq<Seq<char>>)
    requires
        ks.no_duplicates(),
    ensures
        placement(cx, x) is TraitImpl && ks.contains(placement(cx, x)->TraitImpl_0) ==> keyed_impls(cx, p.push(x), ks).to_multiset()
            == keyed_impls(cx, p, ks).to_multiset().insert(x),
        !(placement(cx, x) is TraitImpl && ks.contains(placement(cx, x)->TraitImpl_0)) ==> keyed_impls(
            cx,
            p.push(x),
            ks,
        ).to_multiset() == keyed_impls(cx, p, ks).to_multiset(),
    decreases ks.len(),
{
    broadcast use {vstd::seq_lib::group_to_multiset_ensures, vstd::multiset::group_multiset_axioms, vstd::seq_lib::lemma_multiset_commutative, vstd::seq_lib::group_seq_properties};

    if ks.len() > 0 {
        let q = p.push(x);
        assert(q.drop_last() =~= p);
        assert(ks.drop_last().no_duplicates()) by {
            assert forall|i: int, j: int|
                0 <= i < ks.drop_last().len() && 0 <= j < ks.drop_last().len() && i != j implies ks.drop_last()[i]
                != ks.drop_last()[j] by {
                assert(ks.drop_last()[i] == ks[i] && ks.drop_last()[j] == ks[j]);
            }
        }
        lemma_keyed_impls_push(cx, p, x, ks.drop_last());
        let last = ks.last();
        if placement(cx, x) == Placement::TraitImpl(last) {
            assert(!ks.drop_last().contains(last)) by {
                if ks.drop_last().contains(last) {
                    let i = choose|i: int| 0 <= i < ks.drop_last().len() && ks.drop_last()[i] == last;
                    assert(ks[i] == ks[ks.len() - 1]);
                }
            }
            assert(with_impl_key(cx, q, last) == with_impl_key(cx, p, last).push(x));
        } else {
            assert(with_impl_key(cx, q, last) == with_impl_key(cx, p, last));
            if placement(cx, x) is TraitImpl {
                let kx = placement(cx, x)->TraitImpl_0;
                assert(ks.contains(kx) == ks.drop_last().contains(kx)) by {
                    if ks.contains(kx) {
                        let i = choose|i: int| 0 <= i < ks.len() && ks[i] == kx;
                        assert(i < ks.len() - 1);
                        assert(ks.drop_last()[i] == kx);
                    }
                }
            }
        }
        assert(keyed_impls(cx, q, ks).to_multiset() =~= keyed_impls(cx, q, ks.drop_last()).to_multiset().add(
            with_impl_key(cx, q, last).to_multiset(),
        ));
        assert(keyed_impls(cx, p, ks).to_multiset() =~= keyed_impls(cx, p, ks.drop_last()).to_multiset().add(
            with_impl_key(cx, p, last).to_multiset(),
        ));
    }
}

proof fn lemma_keyed_impls_empty(cx: IndexView, ks: Seq<Seq<char>>)
    ensures
        keyed_impls(cx, Seq::<ItemView>::empty(), ks) == Seq::<ItemView>::empty(),
    decreases ks.len(),
{
    if ks.len() > 0 {
        lemma_keyed_impls_empty(cx, ks.drop_last());
        assert(with_impl_key(cx, Seq::<ItemView>::empty(), ks.last()) == Seq::<ItemView>::empty());
        assert(Seq::<ItemView>::empty() + Seq::<ItemView>::empty() =~= Seq::<ItemView>::empty());
    }
}

proof fn lemma_keyed_impls_partition(cx: IndexView, items: Seq<ItemView>, ks: Seq<Seq<char>>)
    requires
        ks.no_duplicates(),
        forall|i: int|
            0 <= i < items.len() && (#[trigger] placement(cx, items[i])) is TraitImpl ==> ks.contains(
                placement(cx, items[i])->TraitImpl_0,
            ),
    ensures
        keyed_impls(cx, items, ks).to_multiset() == trait_impl_items(cx, items).to_multiset(),
    decreases items.len(),
{
    broadcast use {vstd::seq_lib::group_to_multiset_ensures, vstd::multiset::group_multiset_axioms};

    if items.len() == 0 {
        lemma_keyed_impls_empty(cx, ks);
        assert(items =~= Seq::<ItemView>::empty());
    } else {
        let p = items.drop_last();
        let x = items.last();
        assert(p.push(x) =~= items);
        assert forall|i: int| 0 <= i < p.len() && (#[trigger] placement(cx, p[i])) is TraitImpl implies ks.contains(
            placement(cx, p[i])->TraitImpl_0,
        ) by {
            assert(items[i] == p[i]);
        }
        lemma_keyed_impls_partition(cx, p, ks);
        lemma_keyed_impls_push(cx, p, x, ks);
        if placement(cx, x) is TraitImpl {
            assert(items[items.len() - 1] == x);
            assert(trait_impl_items(cx, items) == trait_impl_items(cx, p).push(x));
        } else {
            assert(trait_impl_items(cx, items) == trait_impl_items(cx, p));
        }
        assert(keyed_impls(cx, items, ks).to_multiset() =~= trait_impl_items(cx, items).to_multiset());
    }
}

proof fn lemma_trait_impl_keys_cover(cx: IndexView, items: Seq<ItemView>)
    ensures
        forall|i: int|
            0 <= i < items.len() && (#[trigger] placement(cx, items[i])) is TraitImpl ==> trait_impl_keys(
                cx,
                items,
            ).contains(placement(cx, items[i])->TraitImpl_0),
    decreases items.len(),
{
    broadcast use vstd::seq_lib::group_seq_properties;

    if items.len() > 0 {
        let p = items.drop_last();
        lemma_trait_impl_keys_cover(cx, p);
        assert forall|i: int| 0 <= i < items.len() && (#[trigger] placement(cx, items[i])) is TraitImpl implies trait_impl_keys(
            cx,
            items,
        ).contains(placement(cx, items[i])->TraitImpl_0) by {
            let ks = trait_impl_keys(cx, p);
            let k = placement(cx, items[i])->TraitImpl_0;
            if i < p.len() {
                assert(items[i] == p[i]);
                assert(ks.contains(k));
                let q = choose|q: int| 0 <= q < ks.len() && ks[q] == k;
                assert(trait_impl_keys(cx, items)[q] == ks[q]);
            } else {
                assert(items[i] == items.last());
                if !ks.contains(k) {
                    assert(trait_impl_keys(cx, items)[ks.len() as int] == k);
                } else {
                    assert(trait_impl_keys(cx, items) == ks);
                }
            }
        }
    }
}

proof fn lemma_block_groups_items(cx: IndexView, items: Seq<ItemView>, bs: Seq<ItemView>)
    ensures
        core_flatten(block_groups(cx, items, bs)).to_multiset() == bs.to_multiset().add(
            first_methods(method_items(cx, items), bs).to_multiset(),
        ),
    decreases bs.len(),
{
    broadcast use {vstd::seq_lib::group_to_multiset_ensures, vstd::multiset::group_multiset_axioms, vstd::seq_lib::lemma_multiset_commutative};

    if bs.len() == 0 {
        assert(bs =~= seq![]);
        assert(core_flatten(block_groups(cx, items, bs)).to_multiset() =~= bs.to_multiset().add(
            first_methods(method_items(cx, items), bs).to_multiset(),
        ));
    } else {
        lemma_block_groups_items(cx, items, bs.drop_last());
        let b = bs.last();
        let t = block_groups(cx, items, bs);
        assert(t.drop_last() =~= block_groups(cx, items, bs.drop_last()));
        assert(bs.drop_last().push(b) =~= bs);
        let ms = with_parent(method_items(cx, items), b.id);
        if !id_seen(bs.drop_last(), b.id) && ms.len() > 0 {
            assert(core_group_items(t.last()) == seq![b] + ms);
        } else {
            assert(core_group_items(t.last()) == seq![b]);
            if !id_seen(bs.drop_last(), b.id) {
                assert(ms =~= seq![]);
            }
        }
        assert(core_flatten(t).to_multiset() =~= bs.to_multiset().add(
            first_methods(method_items(cx, items), bs).to_multiset(),
        ));
    }
}

proof fn lemma_first_methods_empty(bs: Seq<ItemView>)
    ensures
        first_methods(Seq::<ItemView>::empty(), bs) == Seq::<ItemView>::empty(),
    decreases bs.len(),
{
    if bs.len() > 0 {
        lemma_first_methods_empty(bs.drop_last());
        assert(with_parent(Seq::<ItemView>::empty(), bs.last().id) == Seq::<ItemView>::empty());
        assert(Seq::<ItemView>::empty() + Seq::<ItemView>::empty() =~= Seq::<ItemView>::empty());
    }
}

proof fn lemma_first_methods_push(mis: Seq<ItemView>, x: ItemView, bs: Seq<ItemView>)
    ensures
        x.parent_id matches Some(p) && id_seen(bs, p) ==> first_methods(mis.push(x), bs).to_multiset()
            == first_methods(mis, bs).to_multiset().insert(x),
        !(x.parent_id matches Some(p) && id_seen(bs, p)) ==> first_methods(mis.push(x), bs).to_multiset()
            == first_methods(mis, bs).to_multiset(),
    decreases bs.len(),
{
    broadcast use {vstd::seq_lib::group_to_multiset_ensures, vstd::multiset::group_multiset_axioms, vstd::seq_lib::lemma_multiset_commutative};

    let q = mis.push(x);
    assert(q.drop_last() =~= mis);
    if bs.len() > 0 {
        let bl = bs.drop_last();
        let b = bs.last();
        lemma_first_methods_push(mis, x, bl);
        let seen_b = id_seen(bl, b.id);
        if x.parent_id == Some(b.id) {
            assert(with_parent(q, b.id) == with_parent(mis, b.id).push(x));
            assert(id_seen(bs, b.id)) by {
                assert(bs[bs.len() - 1] == b);
            }
        } else {
            assert(with_parent(q, b.id) == with_parent(mis, b.id));
            if x.parent_id is Some {
                let p = x.parent_id->Some_0;
                assert(id_seen(bs, p) == id_seen(bl, p)) by {
                    if id_seen(bs, p) {
                        let i = choose|i: int| 0 <= i < bs.len() && bs[i].id == p;
                        assert(i < bs.len() - 1);
                        assert(bl[i].id == p);
                    }
                    if id_seen(bl, p) {
                        let i = choose|i: int| 0 <= i < bl.len() && bl[i].id == p;
                        assert(bs[i].id == p);
                    }
                }
            }
        }
        if x.parent_id == Some(b.id) && seen_b {
            assert(id_seen(bl, b.id));
        }
        assert(first_methods(q, bs).to_multiset() =~= first_methods(q, bl).to_multiset().add(
            (if !seen_b { with_parent(q, b.id) } else { seq![] }).to_multiset(),
        ));
        assert(first_methods(mis, bs).to_multiset() =~= first_methods(mis, bl).to_multiset().add(
            (if !seen_b { with_parent(mis, b.id) } else { seq![] }).to_multiset(),
        ));
    } else {
        assert(first_methods(q, bs) == Seq::<ItemView>::empty());
        assert(first_methods(mis, bs) == Seq::<ItemView>::empty());
    }
}

proof fn lemma_core_partition(cx: IndexView, items: Seq<ItemView>, bs: Seq<ItemView>)
    ensures
        trait_impl_items(cx, items).to_multiset().add(inherent_blocks(cx, items).to_multiset()).add(
            first_methods(method_items(cx, items), bs).to_multiset(),
        ).add(alone_items(cx, items).to_multiset()).add(orphan_methods(method_items(cx, items), bs).to_multiset())
            == items.to_multiset(),
    decreases items.len(),
{
    broadcast use {vstd::seq_lib::group_to_multiset_ensures, vstd::multiset::group_multiset_axioms};

    if items.len() == 0 {
        lemma_first_methods_empty(bs);
        assert(items =~= seq![]);
        assert(method_items(cx, items) == Seq::<ItemView>::empty());
        assert(trait_impl_items(cx, items).to_multiset().add(inherent_blocks(cx, items).to_multiset()).add(
            first_methods(method_items(cx, items), bs).to_multiset(),
        ).add(alone_items(cx, items).to_multiset()).add(orphan_methods(method_items(cx, items), bs).to_multiset())
            =~= items.to_multiset());
    } else {
        let p = items.drop_last();
        let x = items.last();
        assert(p.push(x) =~= items);
        lemma_core_partition(cx, p, bs);
        let mp = method_items(cx, p);
        lemma_first_methods_push(mp, x, bs);
        assert(mp.push(x).drop_last() =~= mp);
        if placement(cx, x) is Method {
            assert(method_items(cx, items) == mp.push(x));
            assert(x.parent_id == Some(placement(cx, x)->Method_0));
        } else {
            assert(method_items(cx, items) == mp);
        }
        assert(trait_impl_items(cx, items).to_multiset().add(inherent_blocks(cx, items).to_multiset()).add(
            first_methods(method_items(cx, items), bs).to_multiset(),
        ).add(alone_items(cx, items).to_multiset()).add(orphan_methods(method_items(cx, items), bs).to_multiset())
            =~= items.to_multiset());
    }
}

/// The grouping keeps every item, as often as it was given: the groups hold
/// exactly the items.
pub proof fn lemma_core_grouping_keeps_items(cx: IndexView, items: Seq<ItemView>)
    ensures
        core_flatten(core_grouped(cx, items)).to_multiset() == items.to_multiset(),
{
    broadcast use {vstd::seq_lib::group_to_multiset_ensures, vstd::multiset::group_multiset_axioms, vstd::seq_lib::lemma_multiset_commutative};

    let ks = trait_impl_keys(cx, items);
    let bs = inherent_blocks(cx, items);
    let a = trait_groups(cx, items, ks);
    let b = block_groups(cx, items, bs);
    let om = orphan_methods(method_items(cx, items), bs);
    let o = om.map_values(|m: ItemView| GroupView::Single(m));
    let al = alone_items(cx, items);
    let c = al.map_values(|m: ItemView| GroupView::Single(m));
    lemma_keys_distinct(cx, items);
    lemma_trait_impl_keys_cover(cx, items);
    assert forall|i: int| 0 <= i < ks.len() implies trait_impl_keys(cx, items).contains(#[trigger] ks[i]) by {}
    lemma_trait_groups_items(cx, items, ks);
    lemma_keyed_impls_partition(cx, items, ks);
    lemma_block_groups_items(cx, items, bs);
    lemma_core_flatten_singles(om);
    lemma_core_flatten_singles(al);
    lemma_core_flatten_append(a, b);
    lemma_core_flatten_append(a + b, o);
    lemma_core_flatten_append(a + b + o, c);
    lemma_core_partition(cx, items, bs);
    assert(core_flatten(core_grouped(cx, items)).to_multiset() =~= items.to_multiset());
}

// ---------------------------------------------------------------------------
// Methods and associated items join their impl block
// ---------------------------------------------------------------------------
/// A function, associated constant or associated type with a parent is
/// placed as a method of that parent.
pub proof fn lemma_associated_items_placed_with_parent(cx: IndexView, it: ItemView, pid: u32)
    requires
        cx.index.contains_key(it.id),
        cx.index[it.id] is Function || cx.index[it.id] is AssocConst || cx.index[it.id] is AssocType,
        it.parent_id == Some(pid),
    ensures
        placement(cx, it) == Placement::Method(pid),
{
}

proof fn lemma_method_items_has(cx: IndexView, items: Seq<ItemView>, k: int)
    requires
        0 <= k < items.len(),
        placement(cx, items[k]) is Method,
    ensures
        method_items(cx, items).contains(items[k]),
    decreases items.len(),
{
    let r = method_items(cx, items);
    if k == items.len() - 1 {
        assert(r[r.len() - 1] == items[k]);
    } else {
        let p = items.drop_last();
        assert(p[k] == items[k]);
        lemma_method_items_has(cx, p, k);
        let q = choose|q: int| 0 <= q < method_items(cx, p).len() && method_items(cx, p)[q] == items[k];
        assert(r[q] == items[k]);
    }
}

proof fn lemma_inherent_blocks_has(cx: IndexView, items: Seq<ItemView>, k: int)
    requires
        0 <= k < items.len(),
        placement(cx, items[k]) is Inherent,
    ensures
        inherent_blocks(cx, items).contains(items[k]),
    decreases items.len(),
{
    let r = inherent_blocks(cx, items);
    if k == items.len() - 1 {
        assert(r[r.len() - 1] == items[k]);
    } else {
        let p = items.drop_last();
        assert(p[k] == items[k]);
        lemma_inherent_blocks_has(cx, p, k);
        let q = choose|q: int| 0 <= q < inherent_blocks(cx, p).len() && inherent_blocks(cx, p)[q] == items[k];
        assert(r[q] == items[k]);
    }
}

proof fn lemma_with_parent_has(ms: Seq<ItemView>, id: u32, k: int)
    requires
        0 <= k < ms.len(),
        ms[k].parent_id == Some(id),
    ensures
        with_parent(ms, id).contains(ms[k]),
    decreases ms.len(),
{
    let r = with_parent(ms, id);
    if k == ms.len() - 1 {
        assert(r[r.len() - 1] == ms[k]);
    } else {
        let p = ms.drop_last();
        assert(p[k] == ms[k]);
        lemma_with_parent_has(p, id, k);
        let q = choose|q: int| 0 <= q < with_parent(p, id).len() && with_parent(p, id)[q] == ms[k];
        assert(r[q] == ms[k]);
    }
}

proof fn lemma_first_with_id(bs: Seq<ItemView>, id: u32, q: int)
    requires
        0 <= q < bs.len(),
        bs[q].id == id,
    ensures
        exists|f: int| 0 <= f <= q && bs[f].id == id && !id_seen(#[trigger] bs.take(f), id),
    decreases q,
{
    if id_seen(bs.take(q), id) {
        let i = choose|i: int| 0 <= i < bs.take(q).len() && bs.take(q)[i].id == id;
        assert(bs[i].id == id);
        lemma_first_with_id(bs, id, i);
    } else {
        assert(bs[q].id == id && !id_seen(bs.take(q), id));
    }
}

proof fn lemma_block_groups_at(cx: IndexView, items: Seq<ItemView>, bs: Seq<ItemView>)
    ensures
        block_groups(cx, items, bs).len() == bs.len(),
        forall|f: int|
            0 <= f < bs.len() ==> #[trigger] block_groups(cx, items, bs)[f] == block_group(
                cx,
                items,
                bs.take(f),
                bs[f],
            ),
    decreases bs.len(),
{
    if bs.len() > 0 {
        let p = bs.drop_last();
        lemma_block_groups_at(cx, items, p);
        assert forall|f: int| 0 <= f < bs.len() implies #[trigger] block_groups(cx, items, bs)[f] == block_group(
            cx,
            items,
            bs.take(f),
            bs[f],
        ) by {
            if f < p.len() {
                assert(p.take(f) =~= bs.take(f));
                assert(p[f] == bs[f]);
                assert(block_groups(cx, items, bs)[f] == block_groups(cx, items, p)[f]);
            } else {
                assert(p =~= bs.take(f));
            }
        }
    }
}

/// Every function, associated constant or associated type whose parent is an
/// inherent impl block of the listing is among the methods of that block's
/// group: the grouping has an impl-with-methods group for an impl item with
/// the parent's id whose methods hold the item.
pub proof fn lemma_associated_items_join_their_block(cx: IndexView, items: Seq<ItemView>, k: int, j: int)
    requires
        0 <= k < items.len(),
        0 <= j < items.len(),
        cx.index.contains_key(items[k].id),
        cx.index[items[k].id] is Function || cx.index[items[k].id] is AssocConst || cx.index[items[k].id] is AssocType,
        items[k].parent_id == Some(items[j].id),
        cx.index.contains_key(items[j].id),
        cx.index[items[j].id] == (ItemKind::Impl { trait_id: None }),
    ensures
        exists|g: int|
            0 <= g < core_grouped(cx, items).len() && (#[trigger] core_grouped(cx, items)[g] matches GroupView::ImplWithMethods {
                impl_item,
                methods,
            } && impl_item.id == items[j].id && methods.contains(items[k])),
{
    let pid = items[j].id;
    let mis = method_items(cx, items);
    lemma_method_items_has(cx, items, k);
    let mq = choose|q: int| 0 <= q < mis.len() && mis[q] == items[k];
    lemma_with_parent_has(mis, pid, mq);
    let ms = with_parent(mis, pid);
    let bs = inherent_blocks(cx, items);
    lemma_inherent_blocks_has(cx, items, j);
    let bq = choose|q: int| 0 <= q < bs.len() && bs[q] == items[j];
    lemma_first_with_id(bs, pid, bq);
    let f = choose|f: int| 0 <= f <= bq && bs[f].id == pid && !id_seen(#[trigger] bs.take(f), pid);
    lemma_block_groups_at(cx, items, bs);
    let b = block_groups(cx, items, bs);
    assert(b[f] == block_group(cx, items, bs.take(f), bs[f]));
    assert(ms.len() > 0);
    assert(b[f] == GroupView::ImplWithMethods { impl_item: bs[f], methods: ms });
    let a = trait_groups(cx, items, trait_impl_keys(cx, items));
    let o = orphan_methods(mis, bs).map_values(|m: ItemView| GroupView::Single(m));
    let c = alone_items(cx, items).map_values(|m: ItemView| GroupView::Single(m));
    let gs = core_grouped(cx, items);
    assert(gs == a + b + o + c);
    assert(gs[a.len() + f] == b[f]);
}

// ---------------------------------------------------------------------------
// Standard library traits
// ---------------------------------------------------------------------------
/// A trait counts as a standard library trait exactly when its path is known
/// and its first segment is `std`, `core` or `alloc`.
pub proof fn lemma_std_trait_by_first_segment(cx: IndexView, t: u32)
    ensures
        trait_is_std(cx, t) <==> (cx.paths.contains_key(t) && cx.paths[t]@.len() > 0 && (cx.paths[t]@[0]@ == "std"@
            || cx.paths[t]@[0]@ == "core"@ || cx.paths[t]@[0]@ == "alloc"@)),
{
    reveal_strlit("std");
    reveal_strlit("core");
    reveal_strlit("alloc");
    assert("std"@ =~= seq!['s', 't', 'd']);
    assert("core"@ =~= seq!['c', 'o', 'r', 'e']);
    assert("alloc"@ =~= seq!['a', 'l', 'l', 'o', 'c']);
}

} // verus!




