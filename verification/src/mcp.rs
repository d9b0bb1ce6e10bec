//! The decisions of the `rexplore-mcp` server: which method a request calls,
//! what a `tools/call` request must carry, how the `explore_crate` tool reads
//! its arguments, and the text it answers with.
use vstd::prelude::*;

use crate::cli::{core_group_text, duplicate_all, fresh_shortenings, item_texts, shortened_text};
use crate::filter::{
    filter_by_regex, keep_matching, kept_items, regex_compiles, select_items, texts, RegexFilter,
};
use crate::namespace_manager::NamespaceManager;
use crate::public_item::{views, ItemView, PublicItem};
use crate::rexplore_core::impl_grouper::{
    all_condensed_cuttable, condensed_cuttable, core_grouped, core_well_grouped, lemma_core_groups_well_formed,
    member_cuttable, placement, render_impl_with_methods, render_trait_impl_group, CrateIndex,
    GroupView as CoreGroupView, IndexView, ItemGroup as CoreItemGroup, Placement,
};
use crate::text::{chars_eq, chars_of, push_all, string_of};

verus! {

// ---------------------------------------------------------------------------
// Requests
// ---------------------------------------------------------------------------
/// The methods the server answers.
#[derive(Debug, Clone, Copy, PartialEq, Eq)]
pub enum RpcMethod {
    /// `initialize`
    Initialize,
    /// `tools/list`
    ToolsList,
    /// `tools/call`
    ToolsCall,
    /// Any other method.
    Unknown,
}

/// The method that a method name calls.
pub open spec fn method_kind(m: Seq<char>) -> RpcMethod {
    if m == "initialize"@ {
        RpcMethod::Initialize
    } else if m == "tools/list"@ {
        RpcMethod::ToolsList
    } else if m == "tools/call"@ {
        RpcMethod::ToolsCall
    } else {
        RpcMethod::Unknown
    }
}

/// Which method a request calls, by its method name.
pub fn classify_method(method: &str) -> (r: RpcMethod)
    ensures
        r == method_kind(method@),
{
    let m = chars_of(method);
    if chars_eq(&m, &chars_of("initialize")) {
        RpcMethod::Initialize
    } else if chars_eq(&m, &chars_of("tools/list")) {
        RpcMethod::ToolsList
    } else if chars_eq(&m, &chars_of("tools/call")) {
        RpcMethod::ToolsCall
    } else {
        RpcMethod::Unknown
    }
}

/// An error the server answers with: a JSON-RPC error code and a message.
#[derive(Debug)]
pub struct RpcError {
    pub code: i32,
    pub message: String,
}

/// `prefix` followed by `rest`, as a string.
fn joined(prefix: &str, rest: &str) -> (s: String)
    ensures
        s@ == prefix@ + rest@,
{
    let mut v = chars_of(prefix);
    push_all(&mut v, &chars_of(rest));
    string_of(&v)
}

/// The answer to a method the server does not know: code -32601,
/// `Method not found: <method>`.
pub fn method_not_found(method: &str) -> (e: RpcError)
    ensures
        e.code == -32601,
        e.message@ == "Method not found: "@ + method@,
{
    RpcError { code: -32601, message: joined("Method not found: ", method) }
}

/// What the server reads of the params of a `tools/call` request: the tool's
/// name, if it is a string, and whether arguments are given.
pub struct ToolCall {
    pub name: Option<String>,
    pub has_arguments: bool,
}

/// An invalid-params error (code -32602) with this message.
pub open spec fn invalid_params(e: RpcError, message: Seq<char>) -> bool {
    e.code == -32602 && e.message@ == message
}

/// Checks a `tools/call` request before the tool runs: params must be
/// given, with a tool name, the name must be `explore_crate`, and arguments
/// must be given; each failure is answered with code -32602.
pub fn check_tool_call(params: &Option<ToolCall>) -> (r: Result<(), RpcError>)
    ensures
        params is None ==> (r matches Err(e) && invalid_params(e, "Missing params"@)),
        params is Some && params->Some_0.name is None ==> (r matches Err(e) && invalid_params(
            e,
            "Missing tool name"@,
        )),
        params is Some && params->Some_0.name is Some && params->Some_0.name->Some_0@ != "explore_crate"@
            ==> (r matches Err(e) && invalid_params(e, "Unknown tool: "@ + params->Some_0.name->Some_0@)),
        params is Some && params->Some_0.name is Some && params->Some_0.name->Some_0@ == "explore_crate"@
            ==> (r is Ok <==> params->Some_0.has_arguments),
        params is Some && params->Some_0.name is Some && params->Some_0.name->Some_0@ == "explore_crate"@
            && !params->Some_0.has_arguments ==> (r matches Err(e) && invalid_params(e, "Missing arguments"@)),
{
    match params {
        None => Err(RpcError { code: -32602, message: "Missing params".to_owned() }),
        Some(p) => match &p.name {
            None => Err(RpcError { code: -32602, message: "Missing tool name".to_owned() }),
            Some(name) => {
                if !chars_eq(&chars_of(name.as_str()), &chars_of("explore_crate")) {
                    Err(RpcError { code: -32602, message: joined("Unknown tool: ", name.as_str()) })
                } else if !p.has_arguments {
                    Err(RpcError { code: -32602, message: "Missing arguments".to_owned() })
                } else {
                    Ok(())
                }
            },
        },
    }
}

/// The answer when exploring failed: code -32603, `Exploration failed: ` and
/// the error's message.
pub fn exploration_failed(error: &str) -> (e: RpcError)
    ensures
        e.code == -32603,
        e.message@ == "Exploration failed: "@ + error@,
{
    RpcError { code: -32603, message: joined("Exploration failed: ", error) }
}

// ---------------------------------------------------------------------------
// The explore_crate tool
// ---------------------------------------------------------------------------
/// The arguments of the `explore_crate` tool, defaults filled in.
pub struct ExploreArgs {
    /// Path to `Cargo.toml`.
    pub manifest_path: String,
    /// Package to explore, for workspaces.
    pub package: Option<String>,
    /// Regex that items must match.
    pub filter: Option<String>,
    /// Whether to group impl blocks and condense trait impls.
    pub group_impls: bool,
}

/// Fills in the defaults of the tool's arguments: `./Cargo.toml` for the
/// manifest path and grouping impls.
pub fn explore_args(
    manifest_path: Option<String>,
    package: Option<String>,
    filter: Option<String>,
    group_impls: Option<bool>,
) -> (a: ExploreArgs)
    ensures
        a.manifest_path@ == (match manifest_path {
            Some(m) => m@,
            None => "./Cargo.toml"@,
        }),
        a.package == package,
        a.filter == filter,
        a.group_impls == (match group_impls {
            Some(g) => g,
            None => true,
        }),
{
    let manifest_path = match manifest_path {
        Some(m) => m,
        None => "./Cargo.toml".to_owned(),
    };
    let group_impls = match group_impls {
        Some(g) => g,
        None => true,
    };
    ExploreArgs { manifest_path, package, filter, group_impls }
}

/// Compiles the filter of the tool's arguments, if one is given; fails with
/// `Invalid filter regex` when it does not compile.
pub fn compile_filter(filter: &Option<String>) -> (r: Result<Option<RegexFilter>, String>)
    ensures
        filter is None ==> (r matches Ok(f) && f is None),
        filter matches Some(p) ==> (r is Ok <==> regex_compiles(p@)),
        filter matches Some(p) ==> (r matches Ok(f) ==> (f matches Some(rf) && rf.pattern() == p@)),
        r matches Err(m) ==> m@ == "Invalid filter regex"@,
{
    match filter {
        None => Ok(None),
        Some(p) => match RegexFilter::compile(p.as_str()) {
            Ok(f) => Ok(Some(f)),
            Err(_) => Err("Invalid filter regex".to_owned()),
        },
    }
}

/// The lines, each followed by a newline.
pub open spec fn lines_text(ls: Seq<Seq<char>>) -> Seq<char>
    decreases ls.len(),
{
    if ls.len() == 0 {
        seq![]
    } else {
        lines_text(ls.drop_last()) + ls.last() + seq!['\n']
    }
}

/// The answer when no item is left: `No public items found`, with
/// ` (filter may be too restrictive)` when a filter was given, and a newline.
pub open spec fn no_items_text(filtered: bool) -> Seq<char> {
    "No public items found"@ + (if filtered {
        " (filter may be too restrictive)"@
    } else {
        seq![]
    }) + seq!['\n']
}

/// The pattern of an optional filter.
pub open spec fn filter_pattern(filter: Option<RegexFilter>) -> Option<Seq<char>> {
    match filter {
        Some(f) => Some(f.pattern()),
        None => None,
    }
}

/// The texts that pass an optional regex.
pub open spec fn matching(ts: Seq<Seq<char>>, pattern: Option<Seq<char>>) -> Seq<Seq<char>> {
    match pattern {
        Some(p) => keep_matching(ts, p),
        None => ts,
    }
}

/// The text the tool answers with for the items: the items whose text the
/// filter matches (all without a filter); if none is left, a note saying so;
/// else, with paths of the passing texts shortened, each group of the items
/// (or, without grouping, each passing text) on a line of its own.
pub open spec fn exploration_text(
    cx: IndexView,
    items: Seq<ItemView>,
    pattern: Option<Seq<char>>,
    group_impls: bool,
) -> Seq<char> {
    let passed = matching(item_texts(items), pattern);
    let kept = exploration_kept(items, pattern);
    let short = fresh_shortenings(passed);
    if kept.len() == 0 {
        no_items_text(pattern is Some)
    } else if group_impls {
        lines_text(core_grouped(cx, kept).map_values(|g: CoreGroupView| core_group_text(g, short)))
    } else {
        lines_text(passed.map_values(|t: Seq<char>| shortened_text(t, short)))
    }
}

/// The items that the filter's regex matches, or all items without a filter.
pub open spec fn exploration_kept(items: Seq<ItemView>, pattern: Option<Seq<char>>) -> Seq<ItemView> {
    if pattern is Some {
        kept_items(items, item_texts(items), matching(item_texts(items), pattern))
    } else {
        items
    }
}

/// The text that the `explore_crate` tool answers with for the public items
/// of a crate, filtered by the compiled regex if one is given.
pub fn render_exploration(
    items: Vec<PublicItem>,
    filter: &Option<RegexFilter>,
    group_impls: bool,
    crate_data: &CrateIndex,
) -> (out: String)
    requires
        group_impls ==> condensed_cuttable(
            crate_data@,
            exploration_kept(views(items@), filter_pattern(*filter)),
        ),
    ensures
        out@ == exploration_text(crate_data@, views(items@), filter_pattern(*filter), group_impls),
{
    let ghost cx = crate_data@;
    let ghost vs = views(items@);
    let ghost pattern = filter_pattern(*filter);
    let item_strings = crate::cli::texts_of(&items);
    let ghost ts = texts(item_strings@);
    let (filtered_strings, filtered_items) = match filter {
        Some(f) => {
            let fs = filter_by_regex(&item_strings, f);
            let fi = select_items(items, &item_strings, &fs);
            (fs, fi)
        },
        None => (item_strings, items),
    };
    let ghost passed = texts(filtered_strings@);
    assert(passed == matching(item_texts(vs), pattern));
    let ghost kept = views(filtered_items@);
    assert(kept == exploration_kept(vs, pattern));
    let mut out: Vec<char> = Vec::new();
    if filtered_items.len() == 0 {
        push_all(&mut out, &chars_of("No public items found"));
        if filter.is_some() {
            push_all(&mut out, &chars_of(" (filter may be too restrictive)"));
        }
        out.push('\n');
        assert(out@ =~= no_items_text(pattern is Some));
        return string_of(&out);
    }
    let mut namespace_mgr = NamespaceManager::new();
    namespace_mgr.analyze(&filtered_strings);
    let ghost short = namespace_mgr.shortened();
    if group_impls {
        let groups = crate::rexplore_core::impl_grouper::group_impl_items(filtered_items, crate_data);
        assert(condensed_cuttable(cx, kept));
        let ghost gs = core_grouped(cx, kept);
        let ghost ls = gs.map_values(|g: CoreGroupView| core_group_text(g, short));
        proof {
            lemma_core_groups_well_formed(cx, kept);
        }
        let ghost orig = groups@;
        for group in it: groups
            invariant
                it.seq() == orig,
                orig.map_values(|g: CoreItemGroup| g@) == gs,
                ls == gs.map_values(|g: CoreGroupView| core_group_text(g, short)),
                forall|i: int| 0 <= i < gs.len() ==> core_well_grouped(cx, #[trigger] gs[i], kept),
                condensed_cuttable(cx, kept),
                namespace_mgr.wf(),
                short == namespace_mgr.shortened(),
                out@ == lines_text(ls.take(it.index() as int)),
        {
            let ghost k = it.index() as int;
            assert(gs[k] == group@);
            let line = match group {
                CoreItemGroup::Single(item) => namespace_mgr.shorten_text(item.to_string().as_str()),
                CoreItemGroup::TraitImplGroup { members } => {
                    proof {
                        let ms = views(members@);
                        let key = placement(cx, ms[0])->TraitImpl_0;
                        assert forall|i: int| 0 <= i < members@.len() implies member_cuttable(
                            #[trigger] members@[i]@,
                        ) by {
                            assert(ms[i] == members@[i]@);
                            assert(kept.contains(ms[i]));
                            let q = choose|q: int| 0 <= q < kept.len() && kept[q] == ms[i];
                            assert(placement(cx, kept[q]) == Placement::TraitImpl(key));
                        }
                    }
                    render_trait_impl_group(members.as_slice(), &namespace_mgr)
                },
                CoreItemGroup::ImplWithMethods { impl_item, methods } => {
                    render_impl_with_methods(&impl_item, methods.as_slice(), &namespace_mgr)
                },
            };
            assert(line@ == ls[k]);
            push_all(&mut out, &chars_of(line.as_str()));
            out.push('\n');
            assert(ls.take(k + 1).drop_last() =~= ls.take(k));
            assert(out@ =~= lines_text(ls.take(k + 1)));
        }
        assert(ls.take(ls.len() as int) =~= ls);
    } else {
        let ghost ls = passed.map_values(|t: Seq<char>| shortened_text(t, short));
        let mut i: usize = 0;
        while i < filtered_strings.len()
            invariant
                i <= filtered_strings@.len(),
                passed == texts(filtered_strings@),
                ls == passed.map_values(|t: Seq<char>| shortened_text(t, short)),
                namespace_mgr.wf(),
                short == namespace_mgr.shortened(),
                out@ == lines_text(ls.take(i as int)),
            decreases filtered_strings@.len() - i,
        {
            let line = namespace_mgr.shorten_text(filtered_strings[i].as_str());
            assert(passed[i as int] == filtered_strings@[i as int]@);
            push_all(&mut out, &chars_of(line.as_str()));
            out.push('\n');
            assert(ls.take(i + 1).drop_last() =~= ls.take(i as int));
            i = i + 1;
            assert(out@ =~= lines_text(ls.take(i as int)));
        }
        assert(ls.take(ls.len() as int) =~= ls);
    }
    string_of(&out)
}

/// The text of `render_exploration`, where it can be made: `None` when
/// grouping is on and a condensed group of the kept items holds an impl that
/// cannot be cut after `impl`; else what `render_exploration` gives.
pub fn checked_render_exploration(
    items: Vec<PublicItem>,
    filter: &Option<RegexFilter>,
    group_impls: bool,
    crate_data: &CrateIndex,
) -> (r: Option<String>)
    ensures
        r is None <==> (group_impls && !condensed_cuttable(
            crate_data@,
            exploration_kept(views(items@), filter_pattern(*filter)),
        )),
        r matches Some(t) ==> t@ == exploration_text(
            crate_data@,
            views(items@),
            filter_pattern(*filter),
            group_impls,
        ),
{
    if !group_impls {
        return Some(render_exploration(items, filter, group_impls, crate_data));
    }
    let copy = duplicate_all(&items);
    let strings = crate::cli::texts_of(&items);
    let kept = match filter {
        Some(f) => {
            let fs = filter_by_regex(&strings, f);
            select_items(copy, &strings, &fs)
        },
        None => copy,
    };
    if all_condensed_cuttable(&kept, crate_data) {
        Some(render_exploration(items, filter, group_impls, crate_data))
    } else {
        None
    }
}

} // verus!
