//! Filtering the rendered items by a keyword or a regular expression, and
//! keeping the items whose text passed.
use vstd::prelude::*;

use crate::public_item::{views, PublicItem};
use crate::text::{chars_eq, chars_of, contains, contains_exec};

verus! {

// ---------------------------------------------------------------------------
// Regular expressions (the `regex` crate)
// ---------------------------------------------------------------------------
/// A compiled regular expression of the `regex` crate.
#[verifier::external_type_specification]
#[verifier::external_body]
pub struct ExRegex(regex::Regex);

/// The error of the `regex` crate for a pattern that does not compile.
#[verifier::external_type_specification]
#[verifier::external_body]
pub struct ExRegexError(regex::Error);

/// Whether `regex::Regex::new` accepts the pattern (its syntax is valid and
/// the compiled program fits the default size limit).
pub uninterp spec fn regex_compiles(pattern: Seq<char>) -> bool;

/// Whether the regex compiled from `pattern` matches somewhere in `text`
/// (`regex::Regex::is_match`).
pub uninterp spec fn regex_matches(pattern: Seq<char>, text: Seq<char>) -> bool;

/// A compiled regular expression together with the pattern it was compiled
/// from. Only `compile` makes one, so the regex is always that of the pattern.
#[derive(Debug)]
pub struct RegexFilter {
    pattern: String,
    regex: regex::Regex,
}

impl RegexFilter {
    /// The pattern this filter was compiled from.
    pub closed spec fn pattern(&self) -> Seq<char> {
        self.pattern@
    }

    /// Compiles `pattern` with `regex::Regex::new`. It succeeds exactly when
    /// the regex crate accepts the pattern, which is named, not stated; the
    /// filter keeps the pattern it was compiled from.
    #[verifier::external_body]
    pub(crate) fn compile(pattern: &str) -> (r: Result<RegexFilter, regex::Error>)
        ensures
            r is Ok <==> regex_compiles(pattern@),
            r matches Ok(f) ==> f.pattern() == pattern@,
    {
        match regex::Regex::new(pattern) {
            Ok(regex) => Ok(RegexFilter { pattern: pattern.to_string(), regex }),
            Err(e) => Err(e),
        }
    }

    /// Calls `regex::Regex::is_match` on the compiled regex; the result is a
    /// function of the pattern and the text, named `regex_matches`.
    #[verifier::external_body]
    pub(crate) fn is_match(&self, text: &str) -> (b: bool)
        ensures
            b == regex_matches(self.pattern(), text@),
    {
        self.regex.is_match(text)
    }

    /// The pattern this filter was compiled from.
    pub fn as_str(&self) -> (s: &str)
        ensures
            s@ == self.pattern(),
    {
        self.pattern.as_str()
    }
}

// ---------------------------------------------------------------------------
// Filtering
// ---------------------------------------------------------------------------
/// How to filter: by a keyword that must occur in an item, or by a regular
/// expression that must match it; with neither, everything passes.
pub struct FilterOptions {
    /// Keep items that contain this text.
    pub keyword: Option<String>,
    /// Keep items that this regular expression matches.
    pub regex: Option<String>,
}

/// Why filtering failed.
#[derive(Debug)]
pub enum FilterError {
    /// The regular expression does not compile.
    InvalidRegex {
        /// The pattern as given.
        pattern: String,
        /// What the regex crate reported.
        source: regex::Error,
    },
}

/// The items that contain `k`, in order.
pub open spec fn keep_containing(items: Seq<Seq<char>>, k: Seq<char>) -> Seq<Seq<char>>
    decreases items.len(),
{
    if items.len() == 0 {
        seq![]
    } else {
        let r = keep_containing(items.drop_last(), k);
        if contains(items.last(), k) {
            r.push(items.last())
        } else {
            r
        }
    }
}

/// The items that the regex of `pattern` matches, in order.
pub open spec fn keep_matching(items: Seq<Seq<char>>, pattern: Seq<char>) -> Seq<Seq<char>>
    decreases items.len(),
{
    if items.len() == 0 {
        seq![]
    } else {
        let r = keep_matching(items.drop_last(), pattern);
        if regex_matches(pattern, items.last()) {
            r.push(items.last())
        } else {
            r
        }
    }
}

/// The views of a sequence of strings.
pub open spec fn texts(items: Seq<String>) -> Seq<Seq<char>> {
    items.map_values(|s: String| s@)
}

/// The items that contain the keyword, in order.
pub fn filter_by_keyword(items: &[String], keyword: &str) -> (r: Vec<String>)
    ensures
        texts(r@) == keep_containing(texts(items@), keyword@),
{
    let k = chars_of(keyword);
    let ghost ts = texts(items@);
    let mut r: Vec<String> = Vec::new();
    let mut i: usize = 0;
    while i < items.len()
        invariant
            i <= items@.len(),
            ts == texts(items@),
            k@ == keyword@,
            texts(r@) == keep_containing(ts.take(i as int), keyword@),
        decreases items@.len() - i,
    {
        assert(ts.take(i + 1).drop_last() =~= ts.take(i as int));
        assert(ts.take(i + 1).last() == items@[i as int]@);
        if contains_exec(&chars_of(items[i].as_str()), &k) {
            let ghost before = r@;
            r.push(items[i].clone());
            assert(texts(r@) =~= texts(before).push(items@[i as int]@));
        }
        i = i + 1;
    }
    assert(ts.take(items@.len() as int) =~= ts);
    r
}

/// The items that the compiled regular expression matches, in order.
pub fn filter_by_regex(items: &[String], filter: &RegexFilter) -> (r: Vec<String>)
    ensures
        texts(r@) == keep_matching(texts(items@), filter.pattern()),
{
    let ghost ts = texts(items@);
    let mut r: Vec<String> = Vec::new();
    let mut i: usize = 0;
    while i < items.len()
        invariant
            i <= items@.len(),
            ts == texts(items@),
            texts(r@) == keep_matching(ts.take(i as int), filter.pattern()),
        decreases items@.len() - i,
    {
        assert(ts.take(i + 1).drop_last() =~= ts.take(i as int));
        assert(ts.take(i + 1).last() == items@[i as int]@);
        if filter.is_match(items[i].as_str()) {
            let ghost before = r@;
            r.push(items[i].clone());
            assert(texts(r@) =~= texts(before).push(items@[i as int]@));
        }
        i = i + 1;
    }
    assert(ts.take(items@.len() as int) =~= ts);
    r
}

/// Filters the items: by keyword when one is given; else by regular
/// expression when one is given, failing when it does not compile; else all
/// items pass.
pub fn filter_items(items: &[String], options: &FilterOptions) -> (r: Result<Vec<String>, FilterError>)
    ensures
        options.keyword matches Some(k) ==> (r matches Ok(v) && texts(v@) == keep_containing(texts(items@), k@)),
        options.keyword is None && options.regex is None ==> (r matches Ok(v) && texts(v@) == texts(items@)),
        options.keyword is None && options.regex is Some ==> {
            let p = options.regex->Some_0;
            &&& (r is Ok <==> regex_compiles(p@))
            &&& (r matches Ok(v) ==> texts(v@) == keep_matching(texts(items@), p@))
            &&& (r matches Err(e) ==> (e matches FilterError::InvalidRegex { pattern, .. } && pattern@ == p@))
        },
{
    match &options.keyword {
        Some(keyword) => Ok(filter_by_keyword(items, keyword.as_str())),
        None => match &options.regex {
            Some(pattern) => match RegexFilter::compile(pattern.as_str()) {
                Ok(f) => Ok(filter_by_regex(items, &f)),
                Err(e) => Err(FilterError::InvalidRegex { pattern: pattern.clone(), source: e }),
            },
            None => {
                let mut all: Vec<String> = Vec::new();
                let mut i: usize = 0;
                while i < items.len()
                    invariant
                        i <= items@.len(),
                        all@.len() == i,
                        texts(all@) == texts(items@).take(i as int),
                    decreases items@.len() - i,
                {
                    let ghost before = all@;
                    let c = items[i].clone();
                    assert(c@ == items@[i as int]@);
                    all.push(c);
                    assert(all@[i as int]@ == items@[i as int]@);
                    assert(texts(all@)[i as int] == texts(items@)[i as int]);
                    assert(texts(all@) =~= texts(items@).take(i + 1));
                    i = i + 1;
                }
                assert(texts(items@).take(items@.len() as int) =~= texts(items@));
                Ok(all)
            },
        },
    }
}

// ---------------------------------------------------------------------------
// Keeping the items whose text passed
// ---------------------------------------------------------------------------
/// The items `items[i]` whose text `strings[i]` is among `passed`, in order
/// (the two sequences of the same length).
pub open spec fn kept_pairs(
    items: Seq<crate::public_item::ItemView>,
    strings: Seq<Seq<char>>,
    passed: Seq<Seq<char>>,
) -> Seq<crate::public_item::ItemView>
    decreases items.len(),
{
    if items.len() == 0 || strings.len() == 0 {
        seq![]
    } else {
        let r = kept_pairs(items.drop_last(), strings.drop_last(), passed);
        if passed.contains(strings.last()) {
            r.push(items.last())
        } else {
            r
        }
    }
}

/// The items `items[i]`, for `i` below both lengths, whose text `strings[i]`
/// is among `passed`, in order.
pub open spec fn kept_items(
    items: Seq<crate::public_item::ItemView>,
    strings: Seq<Seq<char>>,
    passed: Seq<Seq<char>>,
) -> Seq<crate::public_item::ItemView> {
    let n = if items.len() < strings.len() { items.len() } else { strings.len() };
    kept_pairs(items.take(n as int), strings.take(n as int), passed)
}

/// Whether `s` is among `passed`.
fn is_among(passed: &[String], s: &String) -> (b: bool)
    ensures
        b == texts(passed@).contains(s@),
{
    let sc = chars_of(s.as_str());
    let mut i: usize = 0;
    while i < passed.len()
        invariant
            i <= passed@.len(),
            sc@ == s@,
            forall|k: int| 0 <= k < i ==> passed@[k]@ != s@,
        decreases passed@.len() - i,
    {
        if chars_eq(&chars_of(passed[i].as_str()), &sc) {
            assert(texts(passed@)[i as int] == s@);
            return true;
        }
        i = i + 1;
    }
    assert forall|k: int| 0 <= k < texts(passed@).len() implies texts(passed@)[k] != s@ by {
        assert(passed@[k]@ != s@);
    }
    false
}

/// Keeps the items whose text (at the same position in `strings`) passed
/// the filter, in order; positions beyond the shorter of `items` and
/// `strings` are dropped.
pub fn select_items(items: Vec<PublicItem>, strings: &[String], passed: &[String]) -> (r: Vec<PublicItem>)
    ensures
        views(r@) == kept_items(views(items@), texts(strings@), texts(passed@)),
{
    let ghost vs = views(items@);
    let ghost ss = texts(strings@);
    let ghost ps = texts(passed@);
    let ghost orig_items = items@;
    let total = items.len();
    let n = if items.len() < strings.len() { items.len() } else { strings.len() };
    let mut r: Vec<PublicItem> = Vec::new();
    let mut i: usize = 0;
    for item in it: items
        invariant
            i == it.index(),
            it.seq() == orig_items,
            total == orig_items.len(),
            vs == views(orig_items),
            ss == texts(strings@),
            ps == texts(passed@),
            n <= vs.len(),
            n <= ss.len(),
            n == vs.len() || n == ss.len(),
            i <= n ==> views(r@) == kept_pairs(vs.take(i as int), ss.take(i as int), ps),
            i > n ==> views(r@) == kept_pairs(vs.take(n as int), ss.take(n as int), ps),
    {
        assert(i < total);
        if i < n {
            assert(vs.take(i + 1).drop_last() =~= vs.take(i as int));
            assert(ss.take(i + 1).drop_last() =~= ss.take(i as int));
            assert(vs.take(i + 1).last() == item@);
            assert(ss.take(i + 1).last() == strings@[i as int]@);
            if is_among(passed, &strings[i]) {
                let ghost before = r@;
                r.push(item);
                assert(views(r@) =~= views(before).push(vs[i as int]));
            }
        }
        i = i + 1;
    }
    r
}

} // verus!
