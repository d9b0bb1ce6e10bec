//! The listing that the `rexplore` command prints for a crate: the items that
//! pass the filter, the `use` statements that let their paths be written
//! short, a blank line after them, then each item or group of impl blocks on
//! a line of its own, ending in `;`.
use vstd::prelude::*;

use crate::filter::{
    filter_items, keep_containing, keep_matching, kept_items, kept_pairs, regex_compiles,
    select_items, texts, FilterError, FilterOptions,
};
use crate::impl_grouper::{
    group_impl_items, group_text, grouped, is_trait_impl, lemma_groups_well_formed,
    render_impl_group, tokens_bounded, well_grouped, GroupView, ItemGroup,
};
use crate::namespace_manager::{
    apply_shortenings, item_paths, longest_first, record_all, select_unique, use_statements,
    NamespaceManager,
};
use crate::public_item::{item_text, views, ItemView, PublicItem};
use crate::rexplore_core::impl_grouper::{
    all_condensed_cuttable, condensed_cuttable, core_grouped, core_well_grouped, impl_block_text,
    lemma_core_groups_well_formed, member_cuttable, placement, render_impl_with_methods,
    render_trait_impl_group, trait_group_text, with_impl_key, CrateIndex, GroupView as CoreGroupView, IndexView, ItemGroup as CoreItemGroup, Placement,
};

verus! {

/// The public API of a crate.
pub struct PublicApi {
    /// The items that constitute the public API
    pub items: Vec<PublicItem>,
    /// Missing item IDs
    pub missing_item_ids: Vec<u32>,
}

/// An optional string as an optional character sequence.
pub open spec fn opt_chars(o: Option<String>) -> Option<Seq<char>> {
    match o {
        Some(s) => Some(s@),
        None => None,
    }
}

/// The texts that pass: those that contain the keyword, if one is given;
/// else those that the regular expression matches, if one is given; else all.
pub open spec fn passing(ts: Seq<Seq<char>>, keyword: Option<Seq<char>>, regex: Option<Seq<char>>) -> Seq<Seq<char>> {
    match keyword {
        Some(k) => keep_containing(ts, k),
        None => match regex {
            Some(p) => keep_matching(ts, p),
            None => ts,
        },
    }
}

/// Filtering fails: there is no keyword, and the regular expression given
/// does not compile.
pub open spec fn filter_fails(keyword: Option<Seq<char>>, regex: Option<Seq<char>>) -> bool {
    &&& keyword is None
    &&& regex is Some
    &&& !regex_compiles(regex->Some_0)
}

/// The texts of the items.
pub open spec fn item_texts(items: Seq<ItemView>) -> Seq<Seq<char>> {
    items.map_values(|m: ItemView| item_text(m))
}

/// The paths that a new manager finds shortenable after analyzing the texts.
pub open spec fn fresh_shortenings(ts: Seq<Seq<char>>) -> Seq<Seq<char>> {
    select_unique(record_all(seq![], item_paths(ts)), record_all(seq![], item_paths(ts)), seq![])
}

/// A text with the shortenable paths written short.
pub open spec fn shortened_text(t: Seq<char>, short: Seq<Seq<char>>) -> Seq<char> {
    apply_shortenings(t, longest_first(short))
}

/// The line of a group: a single item's text, or a group's condensed line,
/// shortened, with `;` after it.
pub open spec fn group_line(g: GroupView, short: Seq<Seq<char>>) -> Seq<char> {
    match g {
        GroupView::Single(it) => shortened_text(item_text(it), short) + seq![';'],
        GroupView::ImplGroup { impl_item, members, is_std_trait } => shortened_text(
            group_text(impl_item, members, is_std_trait),
            short,
        ) + seq![';'],
    }
}

/// The `use` statements, followed by a blank line if there are any.
pub open spec fn use_block(uses: Seq<Seq<char>>) -> Seq<Seq<char>> {
    if uses.len() == 0 {
        uses
    } else {
        uses.push(seq![])
    }
}

/// The lines of the listing of the items whose texts are among `passed`:
/// the `use` statements for the paths of the passed texts, then the line of
/// each group of the kept items.
pub open spec fn listing_lines(items: Seq<ItemView>, passed: Seq<Seq<char>>) -> Seq<Seq<char>> {
    let kept = kept_items(items, item_texts(items), passed);
    let short = fresh_shortenings(passed);
    use_block(use_statements(short)) + grouped(kept).map_values(|g: GroupView| group_line(g, short))
}

proof fn lemma_kept_pairs_in(items: Seq<ItemView>, strings: Seq<Seq<char>>, passed: Seq<Seq<char>>)
    ensures
        forall|j: int|
            0 <= j < kept_pairs(items, strings, passed).len() ==> items.contains(
                #[trigger] kept_pairs(items, strings, passed)[j],
            ),
    decreases items.len(),
{
    if items.len() > 0 && strings.len() > 0 {
        lemma_kept_pairs_in(items.drop_last(), strings.drop_last(), passed);
        let r0 = kept_pairs(items.drop_last(), strings.drop_last(), passed);
        let r = kept_pairs(items, strings, passed);
        assert forall|j: int| 0 <= j < r.len() implies items.contains(#[trigger] r[j]) by {
            if j < r0.len() {
                assert(r[j] == r0[j]);
                let q = choose|q: int| 0 <= q < items.drop_last().len() && items.drop_last()[q] == r0[j];
                assert(items[q] == r0[j]);
            } else {
                assert(r[j] == items.last());
                assert(items[items.len() - 1] == items.last());
            }
        }
    }
}

/// Every kept item is one of the items.
proof fn lemma_kept_in(items: Seq<ItemView>, strings: Seq<Seq<char>>, passed: Seq<Seq<char>>)
    ensures
        forall|j: int|
            0 <= j < kept_items(items, strings, passed).len() ==> items.contains(
                #[trigger] kept_items(items, strings, passed)[j],
            ),
{
    let n = if items.len() < strings.len() {
        items.len()
    } else {
        strings.len()
    };
    let k = kept_items(items, strings, passed);
    lemma_kept_pairs_in(items.take(n as int), strings.take(n as int), passed);
    assert forall|j: int| 0 <= j < k.len() implies items.contains(#[trigger] k[j]) by {
        let q = choose|q: int| 0 <= q < items.take(n as int).len() && items.take(n as int)[q] == k[j];
        assert(items[q] == k[j]);
    }
}

/// The texts of the items, in order.
pub(crate) fn texts_of(items: &Vec<PublicItem>) -> (r: Vec<String>)
    ensures
        texts(r@) == item_texts(views(items@)),
{
    let mut r: Vec<String> = Vec::new();
    let mut i: usize = 0;
    while i < items.len()
        invariant
            i <= items@.len(),
            texts(r@) == item_texts(views(items@)).take(i as int),
        decreases items@.len() - i,
    {
        let ghost before = r@;
        r.push(items[i].to_string());
        assert(texts(r@) =~= item_texts(views(items@)).take(i + 1)) by {
            assert(texts(r@) =~= texts(before).push(item_text(items@[i as int]@)));
        }
        i = i + 1;
    }
    assert(item_texts(views(items@)).take(items@.len() as int) =~= item_texts(views(items@)));
    r
}

/// The lines that `rexplore` prints for the public items of a crate: the
/// items are filtered by their text; the `use` statements for the paths of
/// the passing texts come first, with a blank line after them if there are
/// any; then each group of the passing items, by `group_impl_items`, on a
/// line of its own ending in `;`. Fails when the regular expression of the
/// filter does not compile.
pub fn api_listing(items: Vec<PublicItem>, options: &FilterOptions, crate_data: &rustdoc_types::Crate) -> (r: Result<Vec<String>, FilterError>)
    requires
        tokens_bounded(views(items@)),
    ensures
        r is Err <==> filter_fails(opt_chars(options.keyword), opt_chars(options.regex)),
        r matches Err(e) ==> (e matches FilterError::InvalidRegex { pattern, .. } && opt_chars(
            options.regex,
        ) == Some(pattern@)),
        r matches Ok(lines) ==> texts(lines@) == listing_lines(
            views(items@),
            passing(
                item_texts(views(items@)),
                opt_chars(options.keyword),
                opt_chars(options.regex),
            ),
        ),
{
    let ghost vs = views(items@);
    let item_strings = texts_of(&items);
    let filtered_strings = match filter_items(&item_strings, options) {
        Ok(v) => v,
        Err(e) => {
            return Err(e);
        },
    };
    let ghost passed = texts(filtered_strings@);
    assert(passed == passing(item_texts(vs), opt_chars(options.keyword), opt_chars(options.regex)));
    let filtered_items = select_items(items, &item_strings, &filtered_strings);
    let ghost kept = views(filtered_items@);
    proof {
        lemma_kept_in(vs, item_texts(vs), passed);
        assert forall|i: int| 0 <= i < kept.len() implies (#[trigger] kept[i]).tokens.len() <= i32::MAX by {
            let q = choose|q: int| 0 <= q < vs.len() && vs[q] == kept[i];
        }
    }
    let mut namespace_mgr = NamespaceManager::new();
    namespace_mgr.analyze(&filtered_strings);
    let ghost short = namespace_mgr.shortened();
    assert(short == fresh_shortenings(passed));
    let mut lines = namespace_mgr.generate_use_statements();
    if lines.len() > 0 {
        lines.push(String::new());
    }
    let ghost head = texts(lines@);
    assert(head == use_block(use_statements(short)));
    let groups = group_impl_items(filtered_items, crate_data);
    let ghost gs = grouped(kept);
    proof {
        lemma_groups_well_formed(kept);
    }
    let ghost orig = groups@;
    assert(orig.map_values(|g: ItemGroup| g@) == gs);
    for group in it: groups
        invariant
            it.seq() == orig,
            orig.map_values(|g: ItemGroup| g@) == gs,
            gs == grouped(kept),
            forall|i: int| 0 <= i < gs.len() ==> well_grouped(#[trigger] gs[i], kept),
            tokens_bounded(kept),
            namespace_mgr.wf(),
            short == namespace_mgr.shortened(),
            texts(lines@) == head + gs.take(it.index() as int).map_values(
                |g: GroupView| group_line(g, short),
            ),
    {
        let ghost k = it.index() as int;
        assert(gs[k] == group@);
        assert(well_grouped(group@, kept));
        let line = match group {
            ItemGroup::Single(item) => {
                let mut l = namespace_mgr.shorten_text(item.to_string().as_str());
                l.push(';');
                l
            },
            ItemGroup::ImplGroup { impl_item, members, is_std_trait } => {
                proof {
                    let ms = views(members@);
                    assert(ms[0] == members@[0]@);
                    assert(kept.contains(ms[0]));
                    assert(is_trait_impl(ms[0]));
                    assert forall|i: int| 0 <= i < ms.len() implies (#[trigger] ms[i]).tokens.len() <= i32::MAX by {
                        assert(kept.contains(ms[i]));
                        let q = choose|q: int| 0 <= q < kept.len() && kept[q] == ms[i];
                    }
                    let q0 = choose|q: int| 0 <= q < kept.len() && kept[q] == ms[0];
                }
                let mut l = render_impl_group(&impl_item, members.as_slice(), is_std_trait, &namespace_mgr);
                l.push(';');
                l
            },
        };
        assert(line@ == group_line(gs[k], short));
        let ghost before = texts(lines@);
        lines.push(line);
        proof {
            assert(texts(lines@) =~= before.push(group_line(gs[k], short)));
            assert(gs.take(k + 1) =~= gs.take(k).push(gs[k]));
            assert(gs.take(k + 1).map_values(|g: GroupView| group_line(g, short)) =~= gs.take(k).map_values(
                |g: GroupView| group_line(g, short),
            ).push(group_line(gs[k], short)));
        }
    }
    assert(gs.take(gs.len() as int) =~= gs);
    Ok(lines)
}


// ---------------------------------------------------------------------------
// The listing with impl blocks and their methods
// ---------------------------------------------------------------------------
/// The text of a group of the core grouping, paths shortened: a single
/// item's text; a condensed group's line; an impl block with its methods.
pub open spec fn core_group_text(g: CoreGroupView, short: Seq<Seq<char>>) -> Seq<char> {
    match g {
        CoreGroupView::Single(it) => shortened_text(item_text(it), short),
        CoreGroupView::TraitImplGroup { members } => shortened_text(trait_group_text(members), short),
        CoreGroupView::ImplWithMethods { impl_item, methods } => impl_block_text(impl_item, methods, short),
    }
}

/// The items whose texts are among `passed`, in order.
pub open spec fn listed_items(items: Seq<ItemView>, passed: Seq<Seq<char>>) -> Seq<ItemView> {
    kept_items(items, item_texts(items), passed)
}

/// The lines of the listing of the items whose texts are among `passed`,
/// grouped with their impl blocks: the `use` statements, then the text of
/// each group with `;` after it.
pub open spec fn core_listing_lines(cx: IndexView, items: Seq<ItemView>, passed: Seq<Seq<char>>) -> Seq<Seq<char>> {
    let kept = listed_items(items, passed);
    let short = fresh_shortenings(passed);
    use_block(use_statements(short)) + core_grouped(cx, kept).map_values(
        |g: CoreGroupView| core_group_text(g, short) + seq![';'],
    )
}

/// The lines that `rexplore` prints for the public items of a crate, with
/// methods in their impl blocks: the items are filtered by their text; the
/// `use` statements for the paths of the passing texts come first, with a
/// blank line after them if there are any; then each group of the passing
/// items, by the core `group_impl_items`, ending in `;`. Fails when the
/// regular expression of the filter does not compile.
pub fn core_api_listing(items: Vec<PublicItem>, options: &FilterOptions, crate_data: &CrateIndex) -> (r: Result<Vec<String>, FilterError>)
    requires
        !filter_fails(opt_chars(options.keyword), opt_chars(options.regex)) ==> condensed_cuttable(
            crate_data@,
            listed_items(
                views(items@),
                passing(
                    item_texts(views(items@)),
                    opt_chars(options.keyword),
                    opt_chars(options.regex),
                ),
            ),
        ),
    ensures
        r is Err <==> filter_fails(opt_chars(options.keyword), opt_chars(options.regex)),
        r matches Err(e) ==> (e matches FilterError::InvalidRegex { pattern, .. } && opt_chars(
            options.regex,
        ) == Some(pattern@)),
        r matches Ok(lines) ==> texts(lines@) == core_listing_lines(
            crate_data@,
            views(items@),
            passing(
                item_texts(views(items@)),
                opt_chars(options.keyword),
                opt_chars(options.regex),
            ),
        ),
{
    let ghost cx = crate_data@;
    let ghost vs = views(items@);
    let item_strings = texts_of(&items);
    let filtered_strings = match filter_items(&item_strings, options) {
        Ok(v) => v,
        Err(e) => {
            return Err(e);
        },
    };
    let ghost passed = texts(filtered_strings@);
    let filtered_items = select_items(items, &item_strings, &filtered_strings);
    let ghost kept = views(filtered_items@);
    let mut namespace_mgr = NamespaceManager::new();
    namespace_mgr.analyze(&filtered_strings);
    let ghost short = namespace_mgr.shortened();
    let mut lines = namespace_mgr.generate_use_statements();
    if lines.len() > 0 {
        lines.push(String::new());
    }
    let ghost head = texts(lines@);
    assert(head == use_block(use_statements(short)));
    let groups = crate::rexplore_core::impl_grouper::group_impl_items(filtered_items, crate_data);
    let ghost gs = core_grouped(cx, kept);
    proof {
        lemma_core_groups_well_formed(cx, kept);
    }
    let ghost orig = groups@;
    for group in it: groups
        invariant
            it.seq() == orig,
            orig.map_values(|g: CoreItemGroup| g@) == gs,
            gs == core_grouped(cx, kept),
            forall|i: int| 0 <= i < gs.len() ==> core_well_grouped(cx, #[trigger] gs[i], kept),
            forall|i: int|
                0 <= i < kept.len() && (#[trigger] placement(cx, kept[i])) is TraitImpl && with_impl_key(
                    cx,
                    kept,
                    placement(cx, kept[i])->TraitImpl_0,
                ).len() > 1 ==> member_cuttable(kept[i]),
            namespace_mgr.wf(),
            short == namespace_mgr.shortened(),
            texts(lines@) == head + gs.take(it.index() as int).map_values(
                |g: CoreGroupView| core_group_text(g, short) + seq![';'],
            ),
    {
        let ghost k = it.index() as int;
        assert(gs[k] == group@);
        assert(core_well_grouped(cx, group@, kept));
        let mut line = match group {
            CoreItemGroup::Single(item) => namespace_mgr.shorten_text(item.to_string().as_str()),
            CoreItemGroup::TraitImplGroup { members } => {
                proof {
                    let ms = views(members@);
                    let key = placement(cx, ms[0])->TraitImpl_0;
                    assert forall|i: int| 0 <= i < members@.len() implies member_cuttable(#[trigger] members@[i]@) by {
                        assert(ms[i] == members@[i]@);
                        assert(kept.contains(ms[i]));
                        let q = choose|q: int| 0 <= q < kept.len() && kept[q] == ms[i];
                        assert(placement(cx, kept[q]) == Placement::TraitImpl(key));
                    }
                }
                render_trait_impl_group(members.as_slice(), &namespace_mgr)
            },
            CoreItemGroup::ImplWithMethods { impl_item, methods } => {
                render_impl_with_methods(&impl_item, methods.as_slice(), &namespace_mgr)
            },
        };
        assert(line@ == core_group_text(gs[k], short));
        line.push(';');
        assert(line@ =~= core_group_text(gs[k], short) + seq![';']);
        let ghost before = texts(lines@);
        lines.push(line);
        proof {
            assert(texts(lines@) =~= before.push(core_group_text(gs[k], short) + seq![';']));
            assert(gs.take(k + 1) =~= gs.take(k).push(gs[k]));
            assert(gs.take(k + 1).map_values(|g: CoreGroupView| core_group_text(g, short) + seq![';'])
                =~= gs.take(k).map_values(|g: CoreGroupView| core_group_text(g, short) + seq![';']).push(
                core_group_text(gs[k], short) + seq![';'],
            ));
        }
    }
    assert(gs.take(gs.len() as int) =~= gs);
    Ok(lines)
}

/// Copies of the items, in order.
pub(crate) fn duplicate_all(items: &Vec<PublicItem>) -> (r: Vec<PublicItem>)
    ensures
        views(r@) == views(items@),
{
    let mut r: Vec<PublicItem> = Vec::new();
    let mut i: usize = 0;
    while i < items.len()
        invariant
            i <= items@.len(),
            views(r@) == views(items@).take(i as int),
        decreases items@.len() - i,
    {
        let ghost before = r@;
        r.push(items[i].duplicate());
        assert(views(r@) =~= views(items@).take(i + 1)) by {
            assert(views(r@) =~= views(before).push(items@[i as int]@));
        }
        i = i + 1;
    }
    assert(views(items@).take(items@.len() as int) =~= views(items@));
    r
}

/// The listing of `core_api_listing`, where it can be made: `None` when a
/// condensed group of the passing items holds an impl that cannot be cut
/// after `impl`; else what `core_api_listing` gives.
pub fn checked_core_api_listing(
    items: Vec<PublicItem>,
    options: &FilterOptions,
    crate_data: &CrateIndex,
) -> (r: Option<Result<Vec<String>, FilterError>>)
    ensures
        ({
            let kw = opt_chars(options.keyword);
            let re = opt_chars(options.regex);
            let passed = passing(item_texts(views(items@)), kw, re);
            &&& r is None <==> (!filter_fails(kw, re) && !condensed_cuttable(
                crate_data@,
                listed_items(views(items@), passed),
            ))
            &&& r matches Some(x) ==> (x is Err <==> filter_fails(kw, re))
            &&& r matches Some(x) ==> (x matches Err(e) ==> (e matches FilterError::InvalidRegex {
                pattern,
                ..
            } && re == Some(pattern@)))
            &&& r matches Some(x) ==> (x matches Ok(lines) ==> texts(lines@) == core_listing_lines(
                crate_data@,
                views(items@),
                passed,
            ))
        }),
{
    let copy = duplicate_all(&items);
    let strings = texts_of(&items);
    match filter_items(&strings, options) {
        Err(_) => Some(core_api_listing(items, options, crate_data)),
        Ok(passed) => {
            let kept = select_items(copy, &strings, &passed);
            if all_condensed_cuttable(&kept, crate_data) {
                Some(core_api_listing(items, options, crate_data))
            } else {
                None
            }
        },
    }
}

} // verus!
