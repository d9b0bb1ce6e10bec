//! Finds the qualified paths that a listing names, decides which of them can
//! be written by their last segment alone (no other recorded path ends in the
//! same name), produces the `use` statements that bring them into scope, and
//! shortens text accordingly.
use vstd::prelude::*;

use crate::order::{insert_sorted, lemma_sorted_of, sorted_of, strictly_sorted};
use crate::text::{
    chars_eq, chars_of, contains, contains_exec, copy_chars, find, occurs_at, utf8_len, utf8_len_exec, join, join_exec, lemma_rfind, push_all,
    occurs_at_exec, rfind, rfind_exec, string_of, subrange,
};

verus! {

broadcast use vstd::seq_lib::group_seq_properties;

// ---------------------------------------------------------------------------
// Character classes of std that these rules read
// ---------------------------------------------------------------------------
/// Whether `char::is_alphanumeric` holds of `c` (the Unicode `Alphabetic` or
/// `Numeric` property).
pub uninterp spec fn unicode_alphanumeric(c: char) -> bool;

/// Whether `char::is_uppercase` holds of `c` (the Unicode `Uppercase` property).
pub uninterp spec fn unicode_uppercase(c: char) -> bool;

/// Calls `char::is_alphanumeric`; its result is a function of `c` alone,
/// named `unicode_alphanumeric`. Among ASCII characters exactly the letters
/// and digits have the property; which other characters have it is not
/// stated here.
#[verifier::external_body]
fn is_alphanumeric(c: char) -> (b: bool)
    ensures
        b == unicode_alphanumeric(c),
        (c as u32) < 128 ==> (b <==> (('a' <= c && c <= 'z') || ('A' <= c && c <= 'Z') || ('0' <= c
            && c <= '9'))),
{
    c.is_alphanumeric()
}

/// Calls `char::is_uppercase`; its result is a function of `c` alone, named
/// `unicode_uppercase`. Among ASCII characters exactly `A` to `Z` have the
/// property; which other characters have it is not stated here.
#[verifier::external_body]
fn is_uppercase(c: char) -> (b: bool)
    ensures
        b == unicode_uppercase(c),
        (c as u32) < 128 ==> (b <==> ('A' <= c && c <= 'Z')),
{
    c.is_uppercase()
}

// ---------------------------------------------------------------------------
// Paths in text
// ---------------------------------------------------------------------------
/// `::`, the separator of path segments.
pub open spec fn sep() -> Seq<char> {
    seq![':', ':']
}

/// A character that continues a path segment.
pub open spec fn is_path_char(c: char) -> bool {
    unicode_alphanumeric(c) || c == '_'
}

/// The path collected so far, if it is qualified (holds a `::`).
pub open spec fn emitted(cur: Seq<char>) -> Seq<Seq<char>> {
    if contains(cur, sep()) {
        seq![cur]
    } else {
        seq![]
    }
}

/// The qualified paths in `s`, in order, given that `cur` has been collected
/// before `s`: a path is a maximal run of path characters and `::` pairs;
/// any other character, a lone `:` among them, ends it.
pub open spec fn scan_paths(s: Seq<char>, cur: Seq<char>) -> Seq<Seq<char>>
    decreases s.len(),
{
    if s.len() == 0 {
        emitted(cur)
    } else if is_path_char(s[0]) {
        scan_paths(s.drop_first(), cur.push(s[0]))
    } else if s[0] == ':' && s.len() > 1 && s[1] == ':' {
        scan_paths(s.skip(2), cur + sep())
    } else {
        emitted(cur) + scan_paths(s.drop_first(), seq![])
    }
}

/// The qualified paths that occur in `s`, in order.
pub open spec fn qualified_paths(s: Seq<char>) -> Seq<Seq<char>> {
    scan_paths(s, seq![])
}

/// The qualified paths of all the texts, text after text.
pub open spec fn item_paths(items: Seq<Seq<char>>) -> Seq<Seq<char>>
    decreases items.len(),
{
    if items.len() == 0 {
        seq![]
    } else {
        item_paths(items.drop_last()) + qualified_paths(items.last())
    }
}

/// A path split at its last `::` into namespace and name.
pub open spec fn split_path(p: Seq<char>) -> Option<(Seq<char>, Seq<char>)> {
    match rfind(p, sep()) {
        Some(i) => Some((p.take(i), p.skip(i + 2))),
        None => None,
    }
}

/// What comes before the last `::` of a path.
pub open spec fn namespace_of(p: Seq<char>) -> Seq<char> {
    split_path(p).unwrap().0
}

/// What comes after the last `::` of a path.
pub open spec fn name_of(p: Seq<char>) -> Seq<char> {
    split_path(p).unwrap().1
}

/// `never`, the one lower-case name that is recorded.
pub open spec fn never_name() -> Seq<char> {
    seq!['n', 'e', 'v', 'e', 'r']
}

/// A path that is recorded: it is qualified, and its name starts with an
/// uppercase letter (a type or trait) or is `never`.
pub open spec fn names_a_type(p: Seq<char>) -> bool {
    &&& split_path(p) is Some
    &&& name_of(p).len() > 0
    &&& (unicode_uppercase(name_of(p)[0]) || name_of(p) == never_name())
}

/// The recorded paths after recording `p`: it is added at the end if it names
/// a type and is not there yet.
pub open spec fn record_one(acc: Seq<Seq<char>>, p: Seq<char>) -> Seq<Seq<char>> {
    if names_a_type(p) && !acc.contains(p) {
        acc.push(p)
    } else {
        acc
    }
}

/// The recorded paths after recording each of `ps` in turn.
pub open spec fn record_all(acc: Seq<Seq<char>>, ps: Seq<Seq<char>>) -> Seq<Seq<char>>
    decreases ps.len(),
{
    if ps.len() == 0 {
        acc
    } else {
        record_one(record_all(acc, ps.drop_last()), ps.last())
    }
}

/// No other path of `ps` has the name of `p`.
pub open spec fn has_unique_name(ps: Seq<Seq<char>>, p: Seq<char>) -> bool {
    forall|i: int| 0 <= i < ps.len() && name_of(ps[i]) == name_of(p) ==> ps[i] == p
}

/// The candidates, in order, whose name no other path of `all` has and which
/// are not in `known`.
pub open spec fn select_unique(
    cands: Seq<Seq<char>>,
    all: Seq<Seq<char>>,
    known: Seq<Seq<char>>,
) -> Seq<Seq<char>>
    decreases cands.len(),
{
    if cands.len() == 0 {
        seq![]
    } else {
        let rest = select_unique(cands.drop_last(), all, known);
        let p = cands.last();
        if has_unique_name(all, p) && !known.contains(p) {
            rest.push(p)
        } else {
            rest
        }
    }
}


pub proof fn lemma_record_all_append(acc: Seq<Seq<char>>, a: Seq<Seq<char>>, b: Seq<Seq<char>>)
    ensures
        record_all(acc, a + b) == record_all(record_all(acc, a), b),
    decreases b.len(),
{
    if b.len() == 0 {
        assert(a + b =~= a);
    } else {
        assert((a + b).drop_last() =~= a + b.drop_last());
        lemma_record_all_append(acc, a, b.drop_last());
    }
}

/// Recording keeps the recorded paths distinct, naming types, and extends them.
pub proof fn lemma_record_all_wf(acc: Seq<Seq<char>>, ps: Seq<Seq<char>>)
    requires
        acc.no_duplicates(),
        forall|i: int| 0 <= i < acc.len() ==> names_a_type(#[trigger] acc[i]),
    ensures
        record_all(acc, ps).no_duplicates(),
        forall|i: int|
            0 <= i < record_all(acc, ps).len() ==> names_a_type(#[trigger] record_all(acc, ps)[i]),
        acc.is_prefix_of(record_all(acc, ps)),
    decreases ps.len(),
{
    if ps.len() > 0 {
        lemma_record_all_wf(acc, ps.drop_last());
    }
}

/// The namespace and name of a path split at its last `::`.
pub fn split_path_exec(p: &[char]) -> (r: Option<(Vec<char>, Vec<char>)>)
    ensures
        r is None <==> split_path(p@) is None,
        r matches Some((ns, name)) ==> split_path(p@) == Some((ns@, name@)),
{
    let s = vec![':', ':'];
    let n = p.len();
    match rfind_exec(p, &s) {
        Some(i) => {
            proof {
                lemma_rfind(p@, sep());
            }
            assert(i + 2 <= n);
            let ns = subrange(p, 0, i);
            let name = subrange(p, i + 2, n);
            assert(ns@ =~= p@.take(i as int));
            assert(name@ =~= p@.skip(i + 2));
            Some((ns, name))
        },
        None => None,
    }
}

/// Splits a qualified path at its last `::` into namespace and name:
/// `core::marker::Send` gives `core::marker` and `Send`; a path without `::`
/// gives `None`.
pub fn extract_namespace_and_name(path: &str) -> (r: Option<(&str, &str)>)
    ensures
        r is None <==> split_path(path@) is None,
        r matches Some((ns, name)) ==> split_path(path@) == Some((ns@, name@)),
{
    let v = chars_of(path);
    let s = vec![':', ':'];
    let n = v.len();
    match rfind_exec(&v, &s) {
        Some(i) => {
            proof {
                lemma_rfind(v@, sep());
            }
            assert(i + 2 <= n);
            let ns = path.substring_char(0, i);
            let name = path.substring_char(i + 2, n);
            assert(ns@ =~= path@.take(i as int));
            assert(name@ =~= path@.skip(i + 2));
            Some((ns, name))
        },
        None => None,
    }
}

/// Whether the path names a type, as `names_a_type` says.
fn names_a_type_exec(p: &[char]) -> (b: bool)
    ensures
        b == names_a_type(p@),
{
    match split_path_exec(p) {
        Some((_ns, name)) => {
            if name.len() == 0 {
                false
            } else {
                let never = vec!['n', 'e', 'v', 'e', 'r'];
                is_uppercase(name[0]) || chars_eq(&name, &never)
            }
        },
        None => false,
    }
}

/// The position of `x` in `v`, if it is there.
fn index_in(v: &Vec<Vec<char>>, x: &[char]) -> (r: Option<usize>)
    ensures
        r matches Some(i) ==> i < v@.len() && v.deep_view()[i as int] == x@,
        r is None ==> !v.deep_view().contains(x@),
{
    let mut i: usize = 0;
    while i < v.len()
        invariant
            i <= v@.len(),
            forall|k: int| 0 <= k < i ==> v.deep_view()[k] != x@,
        decreases v@.len() - i,
    {
        assert(v.deep_view()[i as int] == v@[i as int]@);
        if chars_eq(&v[i], x) {
            return Some(i);
        }
        i = i + 1;
    }
    None
}

// ---------------------------------------------------------------------------
// Use statements
// ---------------------------------------------------------------------------
/// The non-empty namespaces of the shortenable paths.
pub open spec fn use_namespaces(short: Seq<Seq<char>>) -> Set<Seq<char>> {
    Set::new(
        |ns: Seq<char>|
            ns.len() > 0 && exists|i: int| 0 <= i < short.len() && namespace_of(short[i]) == ns,
    )
}

/// The names of the shortenable paths in namespace `ns`.
pub open spec fn use_names(short: Seq<Seq<char>>, ns: Seq<char>) -> Set<Seq<char>> {
    Set::new(
        |n: Seq<char>|
            exists|i: int|
                0 <= i < short.len() && namespace_of(short[i]) == ns && name_of(short[i]) == n,
    )
}

/// `use `
pub open spec fn use_keyword() -> Seq<char> {
    seq!['u', 's', 'e', ' ']
}

/// The `use` statement for the names (in order) of one namespace:
/// `use ns::Name;` for one name, `use ns::{A, B};` for more.
pub open spec fn use_line(ns: Seq<char>, names: Seq<Seq<char>>) -> Seq<char> {
    if names.len() == 1 {
        use_keyword() + ns + sep() + names[0] + seq![';']
    } else {
        use_keyword() + ns + sep() + seq!['{'] + join(names, seq![',', ' ']) + seq!['}', ';']
    }
}

/// One `use` statement per non-empty namespace of the shortenable paths, the
/// namespaces in increasing order and the names of each in increasing order.
pub open spec fn use_statements(short: Seq<Seq<char>>) -> Seq<Seq<char>> {
    let nss = sorted_of(use_namespaces(short));
    Seq::new(nss.len(), |i: int| use_line(nss[i], sorted_of(use_names(short, nss[i]))))
}

// ---------------------------------------------------------------------------
// Shortening text
// ---------------------------------------------------------------------------
/// `p` occurs in `s` at `i` as a whole path: no path character follows it,
/// and neither a path character nor `::` comes right before it.
pub open spec fn whole_at(s: Seq<char>, p: Seq<char>, i: int) -> bool {
    &&& occurs_at(s, p, i)
    &&& (i == 0 || (!is_path_char(s[i - 1]) && !(s[i - 1] == ':' && i >= 2 && s[i - 2] == ':')))
    &&& (i + p.len() == s.len() || !is_path_char(s[i + p.len()]))
}

/// `s` from index `i` on, with each whole occurrence of `p`, scanning from
/// the left, replaced by `r`.
pub open spec fn replace_paths_from(s: Seq<char>, p: Seq<char>, r: Seq<char>, i: int) -> Seq<char>
    decreases s.len() - i,
{
    if i < 0 || i >= s.len() {
        seq![]
    } else if p.len() > 0 && whole_at(s, p, i) {
        r + replace_paths_from(s, p, r, i + p.len())
    } else {
        seq![s[i]] + replace_paths_from(s, p, r, i + 1)
    }
}

/// `s` with each whole occurrence of the path `p` replaced by `r`; an
/// occurrence inside a longer path is left as it is.
pub open spec fn replace_paths(s: Seq<char>, p: Seq<char>, r: Seq<char>) -> Seq<char> {
    replace_paths_from(s, p, r, 0)
}

/// Whether `c` continues a path segment.
fn is_path_char_exec(c: char) -> (b: bool)
    ensures
        b == is_path_char(c),
{
    c == '_' || is_alphanumeric(c)
}

/// `s` with each whole occurrence of the path `p` replaced by `r`.
fn replace_paths_exec(s: &[char], p: &[char], r: &[char]) -> (out: Vec<char>)
    requires
        p@.len() > 0,
    ensures
        out@ == replace_paths(s@, p@, r@),
{
    let mut out: Vec<char> = Vec::new();
    let mut i: usize = 0;
    while i < s.len()
        invariant
            i <= s@.len(),
            p@.len() > 0,
            out@ + replace_paths_from(s@, p@, r@, i as int) == replace_paths(s@, p@, r@),
        decreases s@.len() - i,
    {
        let ghost before = out@;
        let whole = occurs_at_exec(s, p, i) && (i == 0 || (!is_path_char_exec(s[i - 1]) && !(s[i - 1]
            == ':' && i >= 2 && s[i - 2] == ':'))) && (i + p.len() == s.len() || !is_path_char_exec(
            s[i + p.len()],
        ));
        assert(whole == whole_at(s@, p@, i as int));
        if whole {
            push_all(&mut out, r);
            assert(before + (r@ + replace_paths_from(s@, p@, r@, i + p@.len())) =~= out@
                + replace_paths_from(s@, p@, r@, i + p@.len()));
            i = i + p.len();
        } else {
            out.push(s[i]);
            assert(before + (seq![s@[i as int]] + replace_paths_from(s@, p@, r@, i + 1)) =~= out@
                + replace_paths_from(s@, p@, r@, i + 1));
            i = i + 1;
        }
    }
    assert(out@ + Seq::<char>::empty() =~= out@);
    out
}

/// The text after replacing, path after path, every whole occurrence of
/// the path by its name.
pub open spec fn apply_shortenings(t: Seq<char>, ps: Seq<Seq<char>>) -> Seq<char>
    decreases ps.len(),
{
    if ps.len() == 0 {
        t
    } else {
        apply_shortenings(replace_paths(t, ps[0], name_of(ps[0])), ps.drop_first())
    }
}

/// The paths of `n` bytes in UTF-8, in order.
pub open spec fn with_len(ps: Seq<Seq<char>>, n: int) -> Seq<Seq<char>>
    decreases ps.len(),
{
    if ps.len() == 0 {
        seq![]
    } else {
        let r = with_len(ps.drop_last(), n);
        if utf8_len(ps.last()) == n {
            r.push(ps.last())
        } else {
            r
        }
    }
}

/// The paths of `hi` bytes, then those of `hi - 1` bytes, down to `lo`.
pub open spec fn lengths_down(ps: Seq<Seq<char>>, hi: int, lo: int) -> Seq<Seq<char>>
    decreases hi + 1 - lo,
{
    if hi < lo {
        seq![]
    } else {
        with_len(ps, hi) + lengths_down(ps, hi - 1, lo)
    }
}

/// The number of bytes of the longest path in UTF-8 (0 for none).
pub open spec fn max_len(ps: Seq<Seq<char>>) -> int
    decreases ps.len(),
{
    if ps.len() == 0 {
        0
    } else {
        let m = max_len(ps.drop_last());
        if utf8_len(ps.last()) > m {
            utf8_len(ps.last())
        } else {
            m
        }
    }
}

/// The paths, longest first by their length in bytes (as `str::len`
/// counts); paths of one length in their given order.
pub open spec fn longest_first(ps: Seq<Seq<char>>) -> Seq<Seq<char>> {
    lengths_down(ps, max_len(ps), 0)
}

pub proof fn lemma_apply_append(t: Seq<char>, a: Seq<Seq<char>>, b: Seq<Seq<char>>)
    ensures
        apply_shortenings(t, a + b) == apply_shortenings(apply_shortenings(t, a), b),
    decreases a.len(),
{
    if a.len() == 0 {
        assert(a + b =~= b);
    } else {
        assert((a + b).drop_first() =~= a.drop_first() + b);
        assert((a + b)[0] == a[0]);
        lemma_apply_append(replace_paths(t, a[0], name_of(a[0])), a.drop_first(), b);
    }
}

proof fn lemma_lengths_down_split(ps: Seq<Seq<char>>, hi: int, lo: int)
    requires
        lo <= hi,
    ensures
        lengths_down(ps, hi, lo) == lengths_down(ps, hi, lo + 1) + with_len(ps, lo),
    decreases hi - lo,
{
    if hi == lo {
        assert(lengths_down(ps, hi - 1, lo) =~= Seq::<Seq<char>>::empty());
        assert(lengths_down(ps, hi, lo + 1) =~= Seq::<Seq<char>>::empty());
        assert(with_len(ps, hi) + Seq::<Seq<char>>::empty() =~= Seq::<Seq<char>>::empty()
            + with_len(ps, lo));
    } else {
        lemma_lengths_down_split(ps, hi - 1, lo);
        assert(with_len(ps, hi) + (lengths_down(ps, hi - 1, lo + 1) + with_len(ps, lo)) =~= (
        with_len(ps, hi) + lengths_down(ps, hi - 1, lo + 1)) + with_len(ps, lo));
    }
}

/// A path that names a type holds a `::`, so it is at least two characters long.
proof fn lemma_named_path_len(p: Seq<char>)
    requires
        split_path(p) is Some,
    ensures
        p.len() >= 2,
{
    lemma_rfind(p, sep());
}

// ---------------------------------------------------------------------------
// Statistics
// ---------------------------------------------------------------------------
/// The names of the paths.
pub open spec fn path_names(ps: Seq<Seq<char>>) -> Set<Seq<char>> {
    Set::new(|n: Seq<char>| exists|i: int| 0 <= i < ps.len() && name_of(ps[i]) == n)
}

/// The names that two or more of the paths have.
pub open spec fn colliding_names(ps: Seq<Seq<char>>) -> Set<Seq<char>> {
    Set::new(
        |n: Seq<char>|
            exists|i: int, j: int|
                0 <= i < j < ps.len() && name_of(ps[i]) == n && name_of(ps[j]) == n,
    )
}

/// The namespaces of the paths that themselves hold a `::`.
pub open spec fn nested_namespaces(ps: Seq<Seq<char>>) -> Set<Seq<char>> {
    Set::new(
        |ns: Seq<char>|
            contains(ns, sep()) && exists|i: int| 0 <= i < ps.len() && namespace_of(ps[i]) == ns,
    )
}

/// Counts about the paths that a manager has seen.
pub struct NamespaceStats {
    /// Distinct names among the recorded paths.
    pub total_unique_names: usize,
    /// Names that two or more recorded paths end in.
    pub names_with_collisions: usize,
    /// Paths that can be shortened.
    pub shortenable_paths: usize,
    /// Distinct namespaces with a `::` of their own among the recorded paths.
    pub unique_namespaces: usize,
}

// ---------------------------------------------------------------------------
// The manager
// ---------------------------------------------------------------------------
/// Which qualified paths a listing names and which of them can be shortened
/// to their last segment.
pub struct NamespaceManager {
    /// Every recorded path, once, in the order it was first seen.
    paths: Vec<Vec<char>>,
    /// The paths that can be written by their name alone, in the order found.
    shortenings: Vec<Vec<char>>,
}

impl NamespaceManager {
    /// The recorded paths, in the order first seen.
    pub closed spec fn recorded(self) -> Seq<Seq<char>> {
        self.paths.deep_view()
    }

    /// The paths that can be shortened to their name, in the order found.
    pub closed spec fn shortened(self) -> Seq<Seq<char>> {
        self.shortenings.deep_view()
    }

    /// Each path is recorded once and names a type; each shortenable path is
    /// recorded, once.
    pub open spec fn paths_wf(self) -> bool {
        &&& self.recorded().no_duplicates()
        &&& forall|i: int| 0 <= i < self.recorded().len() ==> names_a_type(#[trigger] self.recorded()[i])
        &&& self.shortened().no_duplicates()
        &&& forall|i: int| 0 <= i < self.shortened().len() ==> self.recorded().contains(#[trigger] self.shortened()[i])
    }

    /// The paths are well formed, and the shortenable paths are exactly the
    /// recorded paths whose name no other recorded path has, in recorded order.
    pub open spec fn wf(self) -> bool {
        &&& self.paths_wf()
        &&& self.shortened() == select_unique(self.recorded(), self.recorded(), seq![])
    }

    /// A manager that has seen nothing.
    pub fn new() -> (m: Self)
        ensures
            m.wf(),
            m.recorded() == Seq::<Seq<char>>::empty(),
            m.shortened() == Seq::<Seq<char>>::empty(),
    {
        let m = NamespaceManager { paths: Vec::new(), shortenings: Vec::new() };
        assert(m.recorded() =~= Seq::<Seq<char>>::empty());
        assert(m.shortened() =~= Seq::<Seq<char>>::empty());
        m
    }

    /// Records every qualified path of every text, then makes the shortenable
    /// paths those recorded paths whose name no other recorded path has; an
    /// earlier shortening whose name now collides is dropped.
    pub fn analyze(&mut self, items: &[String])
        requires
            old(self).wf(),
        ensures
            final(self).wf(),
            final(self).recorded() == record_all(
                old(self).recorded(),
                item_paths(items@.map_values(|s: String| s@)),
            ),
            final(self).shortened() == select_unique(final(self).recorded(), final(self).recorded(), seq![]),
    {
        let ghost texts = items@.map_values(|s: String| s@);
        let ghost start = self.recorded();
        let mut i: usize = 0;
        while i < items.len()
            invariant
                i <= items@.len(),
                texts == items@.map_values(|s: String| s@),
                self.paths_wf(),
                self.shortened() == old(self).shortened(),
                start == old(self).recorded(),
                self.recorded() == record_all(start, item_paths(texts.take(i as int))),
            decreases items@.len() - i,
        {
            let text = chars_of(items[i].as_str());
            self.extract_and_record_paths(&text);
            proof {
                assert(texts.take(i + 1).drop_last() =~= texts.take(i as int));
                assert(texts.take(i + 1).last() == text@);
                lemma_record_all_append(
                    start,
                    item_paths(texts.take(i as int)),
                    qualified_paths(text@),
                );
            }
            i = i + 1;
        }
        assert(texts.take(items@.len() as int) =~= texts);
        self.compute_safe_shortenings();
    }

    /// Records the qualified paths of one text.
    fn extract_and_record_paths(&mut self, text: &[char])
        requires
            old(self).paths_wf(),
        ensures
            final(self).paths_wf(),
            final(self).shortened() == old(self).shortened(),
            final(self).recorded() == record_all(old(self).recorded(), qualified_paths(text@)),
    {
        let ghost start = self.recorded();
        let ghost mut done: Seq<Seq<char>> = seq![];
        let mut cur: Vec<char> = Vec::new();
        let mut i: usize = 0;
        assert(text@.skip(0) =~= text@);
        while i < text.len()
            invariant
                i <= text@.len(),
                self.paths_wf(),
                self.shortened() == old(self).shortened(),
                start == old(self).recorded(),
                done + scan_paths(text@.skip(i as int), cur@) == qualified_paths(text@),
                self.recorded() == record_all(start, done),
            decreases text@.len() - i,
        {
            let ghost rest = text@.skip(i as int);
            let ch = text[i];
            assert(rest[0] == ch);
            if is_alphanumeric(ch) || ch == '_' {
                let ghost before = cur@;
                cur.push(ch);
                i = i + 1;
                assert(rest.drop_first() =~= text@.skip(i as int));
                assert(scan_paths(rest, before) == scan_paths(rest.drop_first(), before.push(ch)));
            } else if ch == ':' && i + 1 < text.len() && text[i + 1] == ':' {
                let ghost before = cur@;
                assert(rest[1] == ':');
                cur.push(':');
                cur.push(':');
                assert(cur@ =~= before + sep());
                i = i + 2;
                assert(rest.skip(2) =~= text@.skip(i as int));
                assert(scan_paths(rest, before) == scan_paths(rest.skip(2), before + sep()));
            } else {
                let ghost before = cur@;
                assert(!(rest[0] == ':' && rest.len() > 1 && rest[1] == ':'));
                assert(scan_paths(rest, before) == emitted(before) + scan_paths(
                    rest.drop_first(),
                    seq![],
                ));
                if contains_exec(&cur, &[':', ':']) {
                    self.record_path(&cur);
                    proof {
                        lemma_record_all_append(start, done, seq![before]);
                        assert(seq![before].drop_last() =~= Seq::<Seq<char>>::empty());
                    }
                }
                proof {
                    done = done + emitted(before);
                }
                cur = Vec::new();
                i = i + 1;
                assert(rest.drop_first() =~= text@.skip(i as int));
                assert(cur@ =~= Seq::<char>::empty());
            }
        }
        let ghost before = cur@;
        assert(text@.skip(i as int).len() == 0);
        if contains_exec(&cur, &[':', ':']) {
            self.record_path(&cur);
            proof {
                lemma_record_all_append(start, done, seq![before]);
                assert(seq![before].drop_last() =~= Seq::<Seq<char>>::empty());
            }
        }
        proof {
            if !contains(before, sep()) {
                assert(done + emitted(before) =~= done);
            }
        }
    }

    /// Records one qualified path, if it names a type and is new.
    fn record_path(&mut self, full_path: &[char])
        requires
            old(self).paths_wf(),
        ensures
            final(self).paths_wf(),
            final(self).shortened() == old(self).shortened(),
            final(self).recorded() == record_one(old(self).recorded(), full_path@),
    {
        if names_a_type_exec(full_path) {
            if index_in(&self.paths, full_path).is_none() {
                let ghost old_rec = self.recorded();
                let item = subrange(full_path, 0, full_path.len());
                assert(item@ =~= full_path@);
                self.paths.push(item);
                assert(self.recorded()[old_rec.len() as int] == full_path@);
                assert(self.recorded() =~= old_rec.push(full_path@));
                assert forall|i: int| 0 <= i < self.shortened().len() implies self.recorded().contains(
                    #[trigger] self.shortened()[i],
                ) by {
                    let k = choose|k: int| 0 <= k < old_rec.len() && old_rec[k] == self.shortened()[i];
                    assert(self.recorded()[k] == old_rec[k]);
                }
            }
        }
    }

    /// Makes the shortenable paths those recorded paths whose name no other
    /// recorded path has, in recorded order.
    fn compute_safe_shortenings(&mut self)
        requires
            old(self).paths_wf(),
        ensures
            final(self).paths_wf(),
            final(self).recorded() == old(self).recorded(),
            final(self).shortened() == select_unique(old(self).recorded(), old(self).recorded(), seq![]),
    {
        let ghost rec = self.recorded();
        self.shortenings = Vec::new();
        let ghost known = self.shortened();
        assert(known =~= Seq::<Seq<char>>::empty());
        let old_len = self.shortenings.len();
        let mut names: Vec<Vec<char>> = Vec::new();
        let mut k: usize = 0;
        while k < self.paths.len()
            invariant
                k <= rec.len(),
                rec == self.recorded(),
                self.paths_wf(),
                self.shortened() == known,
                known == Seq::<Seq<char>>::empty(),
                names@.len() == k,
                forall|m: int| 0 <= m < k ==> #[trigger] names@[m]@ == name_of(rec[m]),
            decreases rec.len() - k,
        {
            assert(rec[k as int] == self.paths@[k as int]@);
            match split_path_exec(&self.paths[k]) {
                Some((_ns, name)) => {
                    names.push(name);
                },
                None => {
                    assert(names_a_type(rec[k as int]));
                    names.push(Vec::new());
                },
            }
            k = k + 1;
        }
        let mut j: usize = 0;
        while j < self.paths.len()
            invariant
                j <= rec.len(),
                rec == self.recorded(),
                known == Seq::<Seq<char>>::empty(),
                old_len == known.len(),
                rec.no_duplicates(),
                forall|i: int| 0 <= i < rec.len() ==> names_a_type(#[trigger] rec[i]),
                names@.len() == rec.len(),
                forall|m: int| 0 <= m < rec.len() ==> #[trigger] names@[m]@ == name_of(rec[m]),
                forall|i: int| 0 <= i < known.len() ==> rec.contains(#[trigger] known[i]),
                self.shortened() == known + select_unique(rec.take(j as int), rec, known),
                self.shortened().no_duplicates(),
                forall|i: int| 0 <= i < self.shortened().len() ==> rec.contains(#[trigger] self.shortened()[i]),
                forall|i: int|
                    old_len <= i < self.shortened().len() ==> exists|m: int|
                        0 <= m < j && #[trigger] self.shortened()[i] == rec[m],
            decreases rec.len() - j,
        {
            let ghost p = rec[j as int];
            assert(rec.take(j + 1).drop_last() =~= rec.take(j as int));
            assert(rec.take(j + 1).last() == p);
            // unique name?
            let mut unique = true;
            let mut i: usize = 0;
            while i < names.len()
                invariant
                    i <= names@.len(),
                    j < rec.len(),
                    names@.len() == rec.len(),
                    rec.no_duplicates(),
                    p == rec[j as int],
                    forall|m: int| 0 <= m < rec.len() ==> #[trigger] names@[m]@ == name_of(rec[m]),
                    unique == forall|m: int|
                        0 <= m < i && name_of(rec[m]) == name_of(p) ==> rec[m] == p,
                decreases names@.len() - i,
            {
                if i != j && chars_eq(&names[i], &names[j]) {
                    assert(rec[i as int] != p);
                    unique = false;
                }
                assert(rec[i as int] == p ==> i == j);
                i = i + 1;
            }
            assert(unique == has_unique_name(rec, p));
            // already known?
            let mut is_known = false;
            let mut t: usize = 0;
            while t < old_len
                invariant
                    t <= old_len,
                    old_len == known.len(),
                    old_len <= self.shortened().len(),
                    forall|m: int| 0 <= m < old_len ==> self.shortened()[m] == known[m],
                    is_known == exists|m: int| 0 <= m < t && known[m] == p,
                    j < rec.len(),
                    rec == self.recorded(),
                    p == rec[j as int],
                    j < self.paths@.len(),
                    self.paths.deep_view()[j as int] == p,
                decreases old_len - t,
            {
                assert(self.shortened()[t as int] == self.shortenings@[t as int]@);
                assert(self.paths.deep_view()[j as int] == self.paths@[j as int]@);
                let same = chars_eq(&self.shortenings[t], &self.paths[j]);
                assert(same == (known[t as int] == p));
                if same {
                    is_known = true;
                }
                assert(is_known == exists|m: int| 0 <= m < t + 1 && known[m] == p) by {
                    if is_known && !same {
                        let m = choose|m: int| 0 <= m < t && known[m] == p;
                        assert(0 <= m < t + 1 && known[m] == p);
                    }
                    if !is_known {
                        assert forall|m: int| 0 <= m < t + 1 implies known[m] != p by {
                            if m < t {
                            }
                        }
                    }
                    if same {
                        assert(0 <= t < t + 1 && known[t as int] == p);
                    }
                }
                t = t + 1;
            }
            assert(is_known == known.contains(p));
            if unique && !is_known {
                let ghost before = self.shortened();
                assert(self.paths.deep_view()[j as int] == self.paths@[j as int]@);
                let item = subrange(&self.paths[j], 0, self.paths[j].len());
                assert(item@ =~= p);
                self.shortenings.push(item);
                assert(self.shortened()[before.len() as int] == p);
                assert(self.shortened() =~= before.push(p));
                assert forall|a: int, b: int|
                    0 <= a < b < self.shortened().len() implies self.shortened()[a]
                    != self.shortened()[b] by {
                    if b == before.len() && a >= old_len {
                        let m = choose|m: int| 0 <= m < j && before[a] == rec[m];
                        assert(rec[m] != rec[j as int]);
                    }
                }
                assert(self.shortened()[before.len() as int] == rec[j as int]);
            }
            j = j + 1;
        }
        assert(rec.take(rec.len() as int) =~= rec);
        assert(known + select_unique(rec, rec, known) =~= select_unique(rec, rec, seq![]));
    }

    /// The `use` statements that bring the shortenable paths into scope, one
    /// per namespace (namespaces and names in increasing order); a path
    /// directly under the root (`::Name`) gets none.
    pub fn generate_use_statements(&self) -> (stmts: Vec<String>)
        requires
            self.wf(),
        ensures
            stmts@.map_values(|s: String| s@) == use_statements(self.shortened()),
    {
        let ghost short = self.shortened();
        let mut nss: Vec<Vec<char>> = Vec::new();
        let mut parts: Vec<(Vec<char>, Vec<char>)> = Vec::new();
        let mut j: usize = 0;
        while j < self.shortenings.len()
            invariant
                self.wf(),
                short == self.shortened(),
                j <= short.len(),
                strictly_sorted(nss.deep_view()),
                nss.deep_view().to_set() == Set::new(
                    |ns: Seq<char>|
                        ns.len() > 0 && exists|i: int| 0 <= i < j && namespace_of(short[i]) == ns,
                ),
                parts@.len() == j,
                forall|m: int|
                    0 <= m < j ==> (#[trigger] parts@[m]).0@ == namespace_of(short[m])
                        && parts@[m].1@ == name_of(short[m]),
            decreases short.len() - j,
        {
            let ghost before = nss.deep_view().to_set();
            assert(short[j as int] == self.shortenings@[j as int]@);
            proof {
                let k = choose|k: int| 0 <= k < self.recorded().len() && self.recorded()[k] == short[j as int];
                assert(names_a_type(self.recorded()[k]));
            }
            match split_path_exec(&self.shortenings[j]) {
                Some((ns, name)) => {
                    if ns.len() > 0 {
                        insert_sorted(&mut nss, copy_chars(&ns));
                    }
                    parts.push((ns, name));
                },
                None => {
                    assert(false);
                },
            }
            assert(nss.deep_view().to_set() =~= Set::new(
                |ns: Seq<char>|
                    ns.len() > 0 && exists|i: int| 0 <= i < j + 1 && namespace_of(short[i]) == ns,
            )) by {
                assert forall|ns: Seq<char>|
                    (ns.len() > 0 && exists|i: int| 0 <= i < j + 1 && namespace_of(short[i]) == ns)
                        implies nss.deep_view().to_set().contains(ns) by {
                    let i = choose|i: int| 0 <= i < j + 1 && namespace_of(short[i]) == ns;
                    if i < j {
                        assert(before.contains(ns));
                    }
                }
                assert forall|ns: Seq<char>| nss.deep_view().to_set().contains(ns) implies (ns.len()
                    > 0 && exists|i: int| 0 <= i < j + 1 && namespace_of(short[i]) == ns) by {
                    if !before.contains(ns) {
                        assert(namespace_of(short[j as int]) == ns);
                    } else {
                        let i = choose|i: int| 0 <= i < j && namespace_of(short[i]) == ns;
                        assert(0 <= i < j + 1);
                    }
                }
            }
            j = j + 1;
        }
        assert(nss.deep_view().to_set() =~= use_namespaces(short));
        proof {
            lemma_sorted_of(nss.deep_view());
        }
        let ghost order = nss.deep_view();
        let mut stmts: Vec<String> = Vec::new();
        let mut a: usize = 0;
        while a < nss.len()
            invariant
                order == nss.deep_view(),
                order == sorted_of(use_namespaces(short)),
                a <= order.len(),
                parts@.len() == short.len(),
                forall|m: int|
                    0 <= m < short.len() ==> (#[trigger] parts@[m]).0@ == namespace_of(short[m])
                        && parts@[m].1@ == name_of(short[m]),
                stmts@.len() == a,
                forall|k: int|
                    0 <= k < a ==> (#[trigger] stmts@[k])@ == use_line(
                        order[k],
                        sorted_of(use_names(short, order[k])),
                    ),
            decreases order.len() - a,
        {
            let ghost ns = order[a as int];
            assert(ns == nss@[a as int]@);
            let mut names: Vec<Vec<char>> = Vec::new();
            let mut m: usize = 0;
            while m < parts.len()
                invariant
                    m <= parts@.len(),
                    parts@.len() == short.len(),
                    ns == nss@[a as int]@,
                    a < nss@.len(),
                    forall|q: int|
                        0 <= q < short.len() ==> (#[trigger] parts@[q]).0@ == namespace_of(short[q])
                            && parts@[q].1@ == name_of(short[q]),
                    strictly_sorted(names.deep_view()),
                    names.deep_view().to_set() == Set::new(
                        |n: Seq<char>|
                            exists|i: int|
                                0 <= i < m && namespace_of(short[i]) == ns && name_of(short[i]) == n,
                    ),
                decreases parts@.len() - m,
            {
                let ghost before = names.deep_view().to_set();
                if chars_eq(&parts[m].0, &nss[a]) {
                    insert_sorted(&mut names, copy_chars(&parts[m].1));
                }
                assert(names.deep_view().to_set() =~= Set::new(
                    |n: Seq<char>|
                        exists|i: int|
                            0 <= i < m + 1 && namespace_of(short[i]) == ns && name_of(short[i]) == n,
                )) by {
                    assert forall|n: Seq<char>|
                        (exists|i: int|
                            0 <= i < m + 1 && namespace_of(short[i]) == ns && name_of(short[i])
                                == n) implies names.deep_view().to_set().contains(n) by {
                        let i = choose|i: int|
                            0 <= i < m + 1 && namespace_of(short[i]) == ns && name_of(short[i])
                                == n;
                        if i < m {
                            assert(before.contains(n));
                        }
                    }
                    assert forall|n: Seq<char>|
                        names.deep_view().to_set().contains(n) implies (exists|i: int|
                            0 <= i < m + 1 && namespace_of(short[i]) == ns && name_of(short[i])
                                == n) by {
                        if !before.contains(n) {
                            assert(namespace_of(short[m as int]) == ns && name_of(short[m as int])
                                == n);
                        } else {
                            let i = choose|i: int|
                                0 <= i < m && namespace_of(short[i]) == ns && name_of(short[i])
                                    == n;
                            assert(0 <= i < m + 1);
                        }
                    }
                }
                m = m + 1;
            }
            assert(names.deep_view().to_set() =~= use_names(short, ns));
            proof {
                lemma_sorted_of(names.deep_view());
            }
            let mut line: Vec<char> = vec!['u', 's', 'e', ' '];
            push_all(&mut line, &nss[a]);
            push_all(&mut line, &[':', ':']);
            if names.len() == 1 {
                push_all(&mut line, &names[0]);
                line.push(';');
                assert(names.deep_view()[0] == names@[0]@);
            } else {
                line.push('{');
                let joined = join_exec(&names, &[',', ' ']);
                push_all(&mut line, &joined);
                line.push('}');
                line.push(';');
            }
            assert(line@ =~= use_line(ns, names.deep_view()));
            stmts.push(string_of(&line));
            a = a + 1;
        }
        assert(stmts@.map_values(|s: String| s@) =~= use_statements(short));
        stmts
    }

    /// The text with every whole occurrence of a shortenable path replaced by
    /// its name, the longest paths first; an occurrence that is part of a
    /// longer path (after `::` or a path character, or followed by a path
    /// character) is left as it is.
    pub fn shorten_text(&self, text: &str) -> (r: String)
        requires
            self.wf(),
        ensures
            r@ == apply_shortenings(text@, longest_first(self.shortened())),
    {
        let ghost ps = self.shortened();
        let n = self.shortenings.len();
        let mut lens: Vec<u128> = Vec::new();
        let mut top: u128 = 0;
        let mut j: usize = 0;
        while j < n
            invariant
                ps == self.shortened(),
                n == ps.len(),
                j <= n,
                lens@.len() == j,
                forall|q: int| 0 <= q < j ==> lens@[q] == utf8_len(#[trigger] ps[q]),
                top == max_len(ps.take(j as int)),
            decreases n - j,
        {
            assert(ps.take(j + 1).drop_last() =~= ps.take(j as int));
            assert(ps[j as int] == self.shortenings@[j as int]@);
            let lj = utf8_len_exec(&self.shortenings[j]);
            lens.push(lj);
            if lj > top {
                top = lj;
            }
            j = j + 1;
        }
        assert(ps.take(n as int) =~= ps);
        let mut t = chars_of(text);
        let mut l: u128 = top;
        assert(lengths_down(ps, top as int, top + 1) =~= Seq::<Seq<char>>::empty());
        loop
            invariant_except_break
                t@ == apply_shortenings(text@, lengths_down(ps, top as int, l + 1)),
            invariant
                self.wf(),
                ps == self.shortened(),
                n == ps.len(),
                lens@.len() == n,
                forall|q: int| 0 <= q < n ==> lens@[q] == utf8_len(#[trigger] ps[q]),
                l <= top,
                top == max_len(ps),
            ensures
                t@ == apply_shortenings(text@, lengths_down(ps, top as int, 0)),
            decreases l,
        {
            let ghost t_start = t@;
            let mut k: usize = 0;
            assert(with_len(ps.take(0), l as int) =~= Seq::<Seq<char>>::empty());
            while k < n
                invariant
                    self.wf(),
                    ps == self.shortened(),
                    n == ps.len(),
                    lens@.len() == n,
                    forall|q: int| 0 <= q < n ==> lens@[q] == utf8_len(#[trigger] ps[q]),
                    k <= n,
                    t@ == apply_shortenings(t_start, with_len(ps.take(k as int), l as int)),
                decreases n - k,
            {
                let ghost p = ps[k as int];
                assert(p == self.shortenings@[k as int]@);
                assert(ps.take(k + 1).drop_last() =~= ps.take(k as int));
                assert(ps.take(k + 1).last() == p);
                let ghost before = with_len(ps.take(k as int), l as int);
                assert(lens@[k as int] == utf8_len(p));
                if lens[k] == l {
                    assert(with_len(ps.take(k + 1), l as int) == before.push(p));
                    assert(before.push(p) =~= before + seq![p]);
                    proof {
                        let q = choose|q: int| 0 <= q < self.recorded().len() && self.recorded()[q] == p;
                        assert(names_a_type(self.recorded()[q]));
                        lemma_named_path_len(p);
                    }
                    match split_path_exec(&self.shortenings[k]) {
                        Some((_ns, name)) => {
                            let ghost t_old = t@;
                            t = replace_paths_exec(&t, &self.shortenings[k], &name);
                            assert(t@ == replace_paths(t_old, p, name_of(p)));
                            assert(apply_shortenings(replace_paths(t_old, p, name_of(p)), Seq::empty())
                                == replace_paths(t_old, p, name_of(p)));
                            assert(seq![p][0] == p);
                            assert(seq![p].drop_first() =~= Seq::<Seq<char>>::empty());
                            assert(apply_shortenings(t_old, seq![p]) == replace_paths(t_old, p, name_of(p)));
                            proof {
                                lemma_apply_append(t_start, before, seq![p]);
                                assert(seq![p].drop_first() =~= Seq::<Seq<char>>::empty());
                            }
                        },
                        None => {
                            assert(false);
                        },
                    }
                } else {
                    assert(with_len(ps.take(k + 1), l as int) == before);
                }
                k = k + 1;
            }
            assert(ps.take(n as int) =~= ps);
            proof {
                lemma_apply_append(text@, lengths_down(ps, top as int, l + 1), with_len(ps, l as int));
                lemma_lengths_down_split(ps, top as int, l as int);
            }
            assert(t@ == apply_shortenings(text@, lengths_down(ps, top as int, l as int)));
            if l == 0 {
                break;
            }
            l = l - 1;
        }
        string_of(&t)
    }

    /// The name and the namespace of each recorded path, in order.
    fn name_parts(&self) -> (r: (Vec<Vec<char>>, Vec<Vec<char>>))
        requires
            self.paths_wf(),
        ensures
            r.0.deep_view() == self.recorded().map_values(|p: Seq<char>| name_of(p)),
            r.1.deep_view() == self.recorded().map_values(|p: Seq<char>| namespace_of(p)),
    {
        let ghost ps = self.recorded();
        let n = self.paths.len();
        let mut names: Vec<Vec<char>> = Vec::new();
        let mut spaces: Vec<Vec<char>> = Vec::new();
        let mut j: usize = 0;
        while j < n
            invariant
                self.paths_wf(),
                ps == self.recorded(),
                n == ps.len(),
                j <= n,
                names.deep_view() == ps.take(j as int).map_values(|p: Seq<char>| name_of(p)),
                spaces.deep_view() == ps.take(j as int).map_values(|p: Seq<char>| namespace_of(p)),
            decreases n - j,
        {
            assert(ps[j as int] == self.paths@[j as int]@);
            assert(names_a_type(ps[j as int]));
            match split_path_exec(&self.paths[j]) {
                Some((ns, name)) => {
                    let ghost nv = name@;
                    let ghost sv = ns@;
                    let ghost nb = names.deep_view();
                    let ghost sb = spaces.deep_view();
                    names.push(name);
                    spaces.push(ns);
                    assert(names.deep_view()[nb.len() as int] == nv);
                    assert(spaces.deep_view()[sb.len() as int] == sv);
                    assert(names.deep_view() =~= nb.push(nv));
                    assert(spaces.deep_view() =~= sb.push(sv));
                },
                None => {
                    assert(false);
                },
            }
            assert(names.deep_view() =~= ps.take(j + 1).map_values(|p: Seq<char>| name_of(p)));
            assert(spaces.deep_view() =~= ps.take(j + 1).map_values(|p: Seq<char>| namespace_of(p)));
            j = j + 1;
        }
        assert(ps.take(n as int) =~= ps);
        (names, spaces)
    }

    /// Counts of distinct names, of names that several paths share, of
    /// shortenable paths, and of distinct nested namespaces; the colliding
    /// names and the shortenable paths add up to the distinct names.
    pub fn stats(&self) -> (st: NamespaceStats)
        requires
            self.paths_wf(),
        ensures
            st.total_unique_names == path_names(self.recorded()).len(),
            st.names_with_collisions == colliding_names(self.recorded()).len(),
            st.shortenable_paths == self.shortened().len(),
            st.unique_namespaces == nested_namespaces(self.recorded()).len(),
            self.wf() ==> st.names_with_collisions + st.shortenable_paths == st.total_unique_names,
    {
        let ghost ps = self.recorded();
        let (names, spaces) = self.name_parts();
        let distinct_names = distinct_of(&names);
        proof {
            assert(path_names(ps) =~= names.deep_view().to_set()) by {
                assert forall|x: Seq<char>| path_names(ps).contains(x) implies names.deep_view().to_set().contains(x) by {
                    let i = choose|i: int| 0 <= i < ps.len() && name_of(ps[i]) == x;
                    assert(names.deep_view()[i] == x);
                }
            }
            distinct_names.deep_view().unique_seq_to_set();
        }
        let nested = keep_nested(&spaces);
        let distinct_spaces = distinct_of(&nested);
        proof {
            assert(nested_namespaces(ps) =~= nested.deep_view().to_set()) by {
                assert forall|x: Seq<char>| nested_namespaces(ps).contains(x) implies nested.deep_view().to_set().contains(x) by {
                    let i = choose|i: int| 0 <= i < ps.len() && namespace_of(ps[i]) == x;
                    assert(spaces.deep_view()[i] == x);
                    assert(spaces.deep_view().to_set().contains(x));
                }
                assert forall|x: Seq<char>| nested.deep_view().to_set().contains(x) implies nested_namespaces(ps).contains(x) by {
                    assert(spaces.deep_view().to_set().contains(x));
                    assert(spaces.deep_view().contains(x));
                    let i = choose|i: int| 0 <= i < spaces.deep_view().len() && spaces.deep_view()[i] == x;
                    assert(namespace_of(ps[i]) == x);
                }
            }
            distinct_spaces.deep_view().unique_seq_to_set();
        }
        let collisions = count_colliding(&names, &distinct_names);
        proof {
            let nm = names.deep_view();
            assert forall|x: Seq<char>| colliding_names(ps).contains(x) <==> occurs_twice(nm, x) by {
                if colliding_names(ps).contains(x) {
                    let (i, i2) = choose|i: int, i2: int|
                        0 <= i < i2 < ps.len() && name_of(ps[i]) == x && name_of(ps[i2]) == x;
                    assert(nm[i] == x && nm[i2] == x);
                }
                if occurs_twice(nm, x) {
                    let (i, i2) = choose|i: int, i2: int|
                        0 <= i < i2 < nm.len() && nm[i] == x && nm[i2] == x;
                    assert(name_of(ps[i]) == x && name_of(ps[i2]) == x);
                }
            }
            assert(colliding_names(ps) =~= Set::new(|x: Seq<char>| occurs_twice(nm, x)));
            if self.wf() {
                lemma_counts_add_up(*self);
            }
        }
        NamespaceStats {
            total_unique_names: distinct_names.len(),
            names_with_collisions: collisions,
            shortenable_paths: self.shortenings.len(),
            unique_namespaces: distinct_spaces.len(),
        }
    }
}

/// `x` occurs at two or more positions of `nm`.
pub open spec fn occurs_twice(nm: Seq<Seq<char>>, x: Seq<char>) -> bool {
    exists|i: int, i2: int| 0 <= i < i2 < nm.len() && nm[i] == x && nm[i2] == x
}

/// The elements of `v` that hold a `::`.
fn keep_nested(v: &Vec<Vec<char>>) -> (r: Vec<Vec<char>>)
    ensures
        r.deep_view().to_set() == v.deep_view().to_set().filter(|x: Seq<char>| contains(x, sep())),
{
    let mut r: Vec<Vec<char>> = Vec::new();
    let mut i: usize = 0;
    while i < v.len()
        invariant
            i <= v@.len(),
            r.deep_view().to_set() == v.deep_view().take(i as int).to_set().filter(
                |x: Seq<char>| contains(x, sep()),
            ),
        decreases v@.len() - i,
    {
        let ghost before = r.deep_view();
        let ghost x = v@[i as int]@;
        assert(v.deep_view()[i as int] == x);
        assert(v.deep_view().take(i + 1) =~= v.deep_view().take(i as int).push(x));
        proof { v.deep_view().take(i as int).lemma_push_to_set_commute(x); }
        if contains_exec(&v[i], &[':', ':']) {
            r.push(copy_chars(&v[i]));
            assert(r.deep_view() =~= before.push(x));
            proof { before.lemma_push_to_set_commute(x); }
        }
        assert(r.deep_view().to_set() =~= v.deep_view().take(i + 1).to_set().filter(
            |x: Seq<char>| contains(x, sep()),
        ));
        i = i + 1;
    }
    assert(v.deep_view().take(v@.len() as int) =~= v.deep_view());
    r
}

/// How many of the distinct names occur twice or more among `names`.
fn count_colliding(names: &Vec<Vec<char>>, distinct: &Vec<Vec<char>>) -> (c: usize)
    requires
        distinct.deep_view().no_duplicates(),
        distinct.deep_view().to_set() == names.deep_view().to_set(),
    ensures
        c == Set::new(|x: Seq<char>| occurs_twice(names.deep_view(), x)).len(),
{
    let ghost nm = names.deep_view();
    let ghost dv = distinct.deep_view();
    let ghost twice = Set::new(|x: Seq<char>| occurs_twice(nm, x));
    let mut chosen: Vec<Vec<char>> = Vec::new();
    let mut d: usize = 0;
    while d < distinct.len()
        invariant
            nm == names.deep_view(),
            dv == distinct.deep_view(),
            twice == Set::new(|x: Seq<char>| occurs_twice(nm, x)),
            dv.to_set() == nm.to_set(),
            dv.no_duplicates(),
            d <= dv.len(),
            chosen.deep_view().no_duplicates(),
            chosen.deep_view().to_set() == dv.take(d as int).to_set().filter(|x: Seq<char>| twice.contains(x)),
        decreases dv.len() - d,
    {
        let ghost x = dv[d as int];
        assert(x == distinct@[d as int]@);
        let mut count: usize = 0;
        let mut m: usize = 0;
        while m < names.len()
            invariant
                nm == names.deep_view(),
                m <= nm.len(),
                d < distinct@.len(),
                x == distinct@[d as int]@,
                count <= 2,
                count >= 1 <==> exists|i: int| 0 <= i < m && nm[i] == x,
                count >= 2 <==> exists|i: int, i2: int| 0 <= i < i2 < m && nm[i] == x && nm[i2] == x,
            decreases nm.len() - m,
        {
            assert(nm[m as int] == names@[m as int]@);
            let hit = chars_eq(&names[m], &distinct[d]);
            proof {
                lemma_count_step(nm, x, m as int, count as int, hit);
            }
            if hit && count < 2 {
                count = count + 1;
            }
            m = m + 1;
        }
        let ghost before = chosen.deep_view();
        assert(twice.contains(x) == occurs_twice(nm, x));
        assert(twice.contains(x) == (count >= 2));
        assert(dv.take(d + 1) =~= dv.take(d as int).push(x));
        proof { dv.take(d as int).lemma_push_to_set_commute(x); }
        if count >= 2 {
            chosen.push(copy_chars(&distinct[d]));
            assert(chosen.deep_view() =~= before.push(x));
            proof { before.lemma_push_to_set_commute(x); }
            assert(!before.contains(x)) by {
                if before.contains(x) {
                    assert(before.to_set().contains(x));
                    assert(dv.take(d as int).to_set().contains(x));
                    assert(dv.take(d as int).contains(x));
                    let k = choose|k: int| 0 <= k < d && dv.take(d as int)[k] == x;
                    assert(dv[k] == dv[d as int]);
                }
            }
        }
        assert(chosen.deep_view().to_set() =~= dv.take(d + 1).to_set().filter(|x: Seq<char>| twice.contains(x)));
        d = d + 1;
    }
    assert(dv.take(dv.len() as int) =~= dv);
    assert(chosen.deep_view().to_set() =~= twice) by {
        assert forall|x: Seq<char>| twice.contains(x) implies dv.to_set().contains(x) by {
            assert(occurs_twice(nm, x));
            let (i, i2) = choose|i: int, i2: int| 0 <= i < i2 < nm.len() && nm[i] == x && nm[i2] == x;
            assert(nm.contains(x));
            assert(nm.to_set().contains(x));
        }
    }
    proof {
        chosen.deep_view().unique_seq_to_set();
    }
    chosen.len()
}

/// One more step of counting, up to two, the occurrences of `x`.
proof fn lemma_count_step(nm: Seq<Seq<char>>, x: Seq<char>, m: int, count: int, hit: bool)
    requires
        0 <= m < nm.len(),
        0 <= count <= 2,
        hit == (nm[m] == x),
        count >= 1 <==> exists|i: int| 0 <= i < m && nm[i] == x,
        count >= 2 <==> exists|i: int, i2: int| 0 <= i < i2 < m && nm[i] == x && nm[i2] == x,
    ensures
        ({
            let c = if hit && count < 2 { count + 1 } else { count };
            &&& c >= 1 <==> exists|i: int| 0 <= i < m + 1 && nm[i] == x
            &&& c >= 2 <==> exists|i: int, i2: int| 0 <= i < i2 < m + 1 && nm[i] == x && nm[i2] == x
        }),
{
    if count >= 1 {
        let i = choose|i: int| 0 <= i < m && nm[i] == x;
        assert(0 <= i < m + 1 && nm[i] == x);
        if hit {
            assert(0 <= i < m < m + 1 && nm[i] == x && nm[m] == x);
        }
    }
    if count >= 2 {
        let (i, i2) = choose|i: int, i2: int| 0 <= i < i2 < m && nm[i] == x && nm[i2] == x;
        assert(0 <= i < i2 < m + 1 && nm[i] == x && nm[i2] == x);
    }
    if hit {
        assert(0 <= m < m + 1 && nm[m] == x);
    }
    if count == 0 && !hit {
        assert forall|i: int| 0 <= i < m + 1 implies nm[i] != x by {
            if i < m {
                assert(!(0 <= i < m && nm[i] == x));
            }
        }
    }
    if count <= 1 {
        assert forall|i: int, i2: int|
            0 <= i < i2 < m + 1 && nm[i] == x && nm[i2] == x implies hit && count == 1 by {
            if i2 < m {
                assert(0 <= i < i2 < m && nm[i] == x && nm[i2] == x);
            } else {
                assert(0 <= i < m && nm[i] == x);
            }
        }
    }
}

/// The distinct elements of `v`, in the order first seen.
fn distinct_of(v: &Vec<Vec<char>>) -> (d: Vec<Vec<char>>)
    ensures
        d.deep_view().no_duplicates(),
        d.deep_view().to_set() == v.deep_view().to_set(),
{
    let mut d: Vec<Vec<char>> = Vec::new();
    let mut i: usize = 0;
    while i < v.len()
        invariant
            i <= v@.len(),
            d.deep_view().no_duplicates(),
            d.deep_view().to_set() == v.deep_view().take(i as int).to_set(),
        decreases v@.len() - i,
    {
        let ghost before = d.deep_view();
        let ghost x = v@[i as int]@;
        assert(v.deep_view()[i as int] == x);
        assert(v.deep_view().take(i + 1) =~= v.deep_view().take(i as int).push(x));
        proof { v.deep_view().take(i as int).lemma_push_to_set_commute(x); }
        match index_in(&d, &v[i]) {
            Some(_) => {
                assert(before.to_set().contains(x));
                assert(before.to_set().insert(x) =~= before.to_set());
            },
            None => {
                d.push(copy_chars(&v[i]));
                assert(d.deep_view() =~= before.push(x));
                proof { before.lemma_push_to_set_commute(x); }
            },
        }
        i = i + 1;
    }
    assert(v.deep_view().take(v@.len() as int) =~= v.deep_view());
    d
}


// ---------------------------------------------------------------------------
// Laws
// ---------------------------------------------------------------------------
proof fn lemma_select_unique_contains(cands: Seq<Seq<char>>, all: Seq<Seq<char>>, known: Seq<Seq<char>>)
    ensures
        forall|p: Seq<char>|
            #[trigger] select_unique(cands, all, known).contains(p) <==> (cands.contains(p) && has_unique_name(all, p)
                && !known.contains(p)),
    decreases cands.len(),
{
    if cands.len() > 0 {
        let dl = cands.drop_last();
        let x = cands.last();
        lemma_select_unique_contains(dl, all, known);
        assert(dl.push(x) =~= cands);
        assert forall|p: Seq<char>| #[trigger] select_unique(cands, all, known).contains(p) <==> (cands.contains(p)
            && has_unique_name(all, p) && !known.contains(p)) by {
            assert(cands.contains(p) <==> (dl.contains(p) || x == p));
            let r = select_unique(dl, all, known);
            if has_unique_name(all, x) && !known.contains(x) {
                assert(r.push(x).contains(p) <==> (r.contains(p) || x == p));
            }
        }
    }
}

/// Whatever a manager has analyzed, a path is shortenable exactly when it is
/// recorded and no other recorded path has the same name: a name that
/// collides is never shortened, also when the collision came with a later
/// analysis.
pub proof fn lemma_shortened_unique(m: NamespaceManager)
    requires
        m.wf(),
    ensures
        forall|p: Seq<char>|
            #[trigger] m.shortened().contains(p) <==> (m.recorded().contains(p) && has_unique_name(
                m.recorded(),
                p,
            )),
{
    lemma_select_unique_contains(m.recorded(), m.recorded(), seq![]);
}

/// Joining the namespace and the name of a split path with `::` gives the
/// path back, and the name holds no `::`.
pub proof fn lemma_split_path_rejoins(p: Seq<char>)
    requires
        split_path(p) is Some,
    ensures
        namespace_of(p) + sep() + name_of(p) == p,
        !contains(name_of(p), sep()),
{
    lemma_rfind(p, sep());
    let i = rfind(p, sep())->Some_0;
    assert(p.subrange(i, i + 2) == sep());
    assert(p.take(i) + sep() + p.skip(i + 2) =~= p);
    let name = p.skip(i + 2);
    crate::text::lemma_find_from(name, sep(), 0);
    if contains(name, sep()) {
        let m = find(name, sep())->Some_0;
        assert(name.subrange(m, m + 2) =~= p.subrange(i + 2 + m, i + 2 + m + 2));
        assert(occurs_at(p, sep(), i + 2 + m));
    }
}

proof fn lemma_replace_from_absent(s: Seq<char>, p: Seq<char>, r: Seq<char>, i: int)
    requires
        0 <= i <= s.len(),
        forall|m: int| 0 <= m ==> !occurs_at(s, p, m),
    ensures
        replace_paths_from(s, p, r, i) == s.skip(i),
    decreases s.len() - i,
{
    if i < s.len() {
        lemma_replace_from_absent(s, p, r, i + 1);
        assert(seq![s[i]] + s.skip(i + 1) =~= s.skip(i));
    } else {
        assert(s.skip(i) =~= Seq::<char>::empty());
    }
}

proof fn lemma_replace_absent(s: Seq<char>, p: Seq<char>, r: Seq<char>)
    requires
        !contains(s, p),
    ensures
        replace_paths(s, p, r) == s,
{
    crate::text::lemma_find_from(s, p, 0);
    lemma_replace_from_absent(s, p, r, 0);
    assert(s.skip(0) =~= s);
}

proof fn lemma_lengths_down_in(ps: Seq<Seq<char>>, hi: int, lo: int)
    ensures
        forall|i: int| 0 <= i < lengths_down(ps, hi, lo).len() ==> ps.contains(#[trigger] lengths_down(ps, hi, lo)[i]),
    decreases hi + 1 - lo,
{
    if hi >= lo {
        lemma_lengths_down_in(ps, hi - 1, lo);
        lemma_with_len_in(ps, hi);
        let a = with_len(ps, hi);
        let b = lengths_down(ps, hi - 1, lo);
        assert forall|i: int| 0 <= i < lengths_down(ps, hi, lo).len() implies ps.contains(
            #[trigger] lengths_down(ps, hi, lo)[i],
        ) by {
            if i < a.len() {
                assert(lengths_down(ps, hi, lo)[i] == a[i]);
            } else {
                assert(lengths_down(ps, hi, lo)[i] == b[i - a.len()]);
            }
        }
    }
}

proof fn lemma_with_len_in(ps: Seq<Seq<char>>, n: int)
    ensures
        forall|i: int| 0 <= i < with_len(ps, n).len() ==> ps.contains(#[trigger] with_len(ps, n)[i]),
    decreases ps.len(),
{
    if ps.len() > 0 {
        let p = ps.drop_last();
        lemma_with_len_in(p, n);
        let r0 = with_len(p, n);
        let r = with_len(ps, n);
        assert forall|i: int| 0 <= i < r.len() implies ps.contains(#[trigger] r[i]) by {
            if i < r0.len() {
                assert(r[i] == r0[i]);
                let q = choose|q: int| 0 <= q < p.len() && p[q] == r0[i];
                assert(ps[q] == r0[i]);
            } else {
                assert(ps[ps.len() - 1] == ps.last());
            }
        }
    }
}

proof fn lemma_apply_absent(t: Seq<char>, qs: Seq<Seq<char>>)
    requires
        forall|i: int| 0 <= i < qs.len() ==> !contains(t, #[trigger] qs[i]),
    ensures
        apply_shortenings(t, qs) == t,
    decreases qs.len(),
{
    if qs.len() > 0 {
        lemma_replace_absent(t, qs[0], name_of(qs[0]));
        assert forall|i: int| 0 <= i < qs.drop_first().len() implies !contains(t, #[trigger] qs.drop_first()[i]) by {
            assert(qs.drop_first()[i] == qs[i + 1]);
        }
        lemma_apply_absent(t, qs.drop_first());
    }
}

/// The names that collide and the shortenable paths together account for
/// every distinct name: each name is either shared by two or more recorded
/// paths or is the name of exactly one shortenable path.
pub proof fn lemma_counts_add_up(m: NamespaceManager)
    requires
        m.wf(),
    ensures
        colliding_names(m.recorded()).len() + m.shortened().len() == path_names(m.recorded()).len(),
{
    broadcast use vstd::set::group_set_axioms;

    let rec = m.recorded();
    let sh = m.shortened();
    let pn = path_names(rec);
    let cn = colliding_names(rec);
    let nm = rec.map_values(|p: Seq<char>| name_of(p));
    assert(pn =~= nm.to_set()) by {
        assert forall|n: Seq<char>| pn.contains(n) implies nm.to_set().contains(n) by {
            let i = choose|i: int| 0 <= i < rec.len() && name_of(rec[i]) == n;
            assert(nm[i] == n);
        }
        assert forall|n: Seq<char>| nm.to_set().contains(n) implies pn.contains(n) by {
            let i = choose|i: int| 0 <= i < nm.len() && nm[i] == n;
            assert(name_of(rec[i]) == n);
        }
    }
    vstd::seq_lib::seq_to_set_is_finite(nm);
    assert(cn.subset_of(pn)) by {
        assert forall|n: Seq<char>| cn.contains(n) implies pn.contains(n) by {
            let (i, j) = choose|i: int, j: int|
                0 <= i < j < rec.len() && name_of(rec[i]) == n && name_of(rec[j]) == n;
        }
    }
    vstd::set_lib::lemma_len_subset(cn, pn);
    vstd::set_lib::lemma_set_difference_len(pn, cn);
    assert(pn.intersect(cn) =~= cn);
    let u = pn.difference(cn);
    lemma_select_unique_contains(rec, rec, seq![]);
    sh.unique_seq_to_set();
    let f = |p: Seq<char>| name_of(p);
    let st = sh.to_set();
    assert(vstd::relations::injective_on(f, st)) by {
        assert forall|a: Seq<char>, b: Seq<char>|
            st.contains(a) && st.contains(b) && #[trigger] f(a) == #[trigger] f(b) implies a == b by {
            assert(sh.contains(a) && sh.contains(b));
            assert(rec.contains(b) && has_unique_name(rec, a));
            let j = choose|j: int| 0 <= j < rec.len() && rec[j] == b;
            assert(name_of(rec[j]) == name_of(a));
        }
    }
    assert(st.map(f) =~= u) by {
        assert forall|n: Seq<char>| st.map(f).contains(n) implies u.contains(n) by {
            let a = choose|a: Seq<char>| st.contains(a) && n == f(a);
            assert(sh.contains(a));
            assert(rec.contains(a) && has_unique_name(rec, a));
            let i = choose|i: int| 0 <= i < rec.len() && rec[i] == a;
            assert(pn.contains(n));
            if cn.contains(n) {
                let (x, y) = choose|x: int, y: int|
                    0 <= x < y < rec.len() && name_of(rec[x]) == n && name_of(rec[y]) == n;
                assert(rec[x] == a && rec[y] == a);
            }
        }
        assert forall|n: Seq<char>| u.contains(n) implies st.map(f).contains(n) by {
            let i = choose|i: int| 0 <= i < rec.len() && name_of(rec[i]) == n;
            let p = rec[i];
            assert(has_unique_name(rec, p)) by {
                assert forall|k: int| 0 <= k < rec.len() && name_of(rec[k]) == name_of(p) implies rec[k] == p by {
                    if k < i {
                        assert(cn.contains(n));
                    } else if k > i {
                        assert(cn.contains(n));
                    }
                }
            }
            assert(rec.contains(p));
            assert(sh.contains(p));
            assert(st.contains(p) && n == f(p));
        }
    }
    vstd::set_lib::lemma_map_size(st, u, f);
}

/// Shortening changes only text that names a shortenable path: a text in
/// which none occurs is left as it is.
pub proof fn lemma_shortening_absent(t: Seq<char>, short: Seq<Seq<char>>)
    requires
        forall|i: int| 0 <= i < short.len() ==> !contains(t, #[trigger] short[i]),
    ensures
        apply_shortenings(t, longest_first(short)) == t,
{
    let qs = longest_first(short);
    lemma_lengths_down_in(short, max_len(short), 0);
    assert forall|i: int| 0 <= i < qs.len() implies !contains(t, #[trigger] qs[i]) by {
        assert(short.contains(qs[i]));
        let q = choose|q: int| 0 <= q < short.len() && short[q] == qs[i];
    }
    lemma_apply_absent(t, qs);
}

proof fn lemma_item_paths_append(a: Seq<Seq<char>>, b: Seq<Seq<char>>)
    ensures
        item_paths(a + b) == item_paths(a) + item_paths(b),
    decreases b.len(),
{
    if b.len() == 0 {
        assert(a + b =~= a);
        assert(item_paths(a) + item_paths(b) =~= item_paths(a));
    } else {
        assert((a + b).drop_last() =~= a + b.drop_last());
        assert((a + b).last() == b.last());
        lemma_item_paths_append(a, b.drop_last());
        assert(item_paths(a) + item_paths(b.drop_last()) + qualified_paths(b.last()) =~= item_paths(a) + (
        item_paths(b.drop_last()) + qualified_paths(b.last())));
    }
}

/// Analyzing texts in two batches records the same paths, in the same order,
/// as analyzing all of them at once.
pub proof fn lemma_analyze_in_batches(acc: Seq<Seq<char>>, a: Seq<Seq<char>>, b: Seq<Seq<char>>)
    ensures
        record_all(record_all(acc, item_paths(a)), item_paths(b)) == record_all(acc, item_paths(a + b)),
{
    lemma_item_paths_append(a, b);
    lemma_record_all_append(acc, item_paths(a), item_paths(b));
}

// ---------------------------------------------------------------------------
// Recorded paths are whole paths of the texts
// ---------------------------------------------------------------------------
/// `p` occurs in `t` at `i` as a maximal path: the characters right before
/// and right after it, where there are any, are neither alphanumeric nor `_`.
pub open spec fn maximal_at(t: Seq<char>, p: Seq<char>, i: int) -> bool {
    &&& occurs_at(t, p, i)
    &&& (i == 0 || !(unicode_alphanumeric(t[i - 1]) || t[i - 1] == '_'))
    &&& (i + p.len() == t.len() || !(unicode_alphanumeric(t[i + p.len()]) || t[i + p.len()] == '_'))
}

/// No path character stands at `k` in `s` (or `k` is its end).
spec fn path_ends(s: Seq<char>, k: int) -> bool {
    k == s.len() || !is_path_char(s[k])
}

/// `p` is `cur` followed by a run of `s` from its start up to where a path ends.
spec fn continues_from(s: Seq<char>, cur: Seq<char>, p: Seq<char>, j: int) -> bool {
    0 <= j <= s.len() && p == cur + s.take(j) && path_ends(s, j)
}

/// `p` stands inside `s` at `i`, not at its start, with no path character
/// right before or right after it.
spec fn stands_inside(s: Seq<char>, p: Seq<char>, i: int) -> bool {
    1 <= i && occurs_at(s, p, i) && !is_path_char(s[i - 1]) && path_ends(s, i + p.len())
}

spec fn scanned_from(s: Seq<char>, cur: Seq<char>, p: Seq<char>) -> bool {
    (exists|j: int| continues_from(s, cur, p, j)) || (exists|i: int| stands_inside(s, p, i))
}

proof fn lemma_scan_paths_maximal(s: Seq<char>, cur: Seq<char>)
    ensures
        forall|p: Seq<char>| #[trigger] scan_paths(s, cur).contains(p) ==> scanned_from(s, cur, p),
    decreases s.len(),
{
    if s.len() == 0 {
        assert forall|p: Seq<char>| #[trigger] scan_paths(s, cur).contains(p) implies scanned_from(s, cur, p) by {
            assert(p == cur);
            assert(cur + s.take(0) =~= cur);
            assert(continues_from(s, cur, p, 0));
        }
    } else if is_path_char(s[0]) {
        let s1 = s.drop_first();
        let c1 = cur.push(s[0]);
        lemma_scan_paths_maximal(s1, c1);
        assert forall|p: Seq<char>| #[trigger] scan_paths(s, cur).contains(p) implies scanned_from(s, cur, p) by {
            assert(scan_paths(s1, c1).contains(p));
            if exists|j: int| continues_from(s1, c1, p, j) {
                let j = choose|j: int| continues_from(s1, c1, p, j);
                assert(cur + s.take(j + 1) =~= c1 + s1.take(j));
                if j < s1.len() {
                    assert(s[j + 1] == s1[j]);
                }
                assert(continues_from(s, cur, p, j + 1));
            } else {
                let i = choose|i: int| stands_inside(s1, p, i);
                assert(s.subrange(i + 1, i + 1 + p.len()) =~= s1.subrange(i, i + p.len()));
                assert(s[i] == s1[i - 1]);
                if i + p.len() < s1.len() {
                    assert(s[i + 1 + p.len()] == s1[i + p.len()]);
                }
                assert(stands_inside(s, p, i + 1));
            }
        }
    } else if s[0] == ':' && s.len() > 1 && s[1] == ':' {
        let s2 = s.skip(2);
        let c2 = cur + sep();
        lemma_scan_paths_maximal(s2, c2);
        assert forall|p: Seq<char>| #[trigger] scan_paths(s, cur).contains(p) implies scanned_from(s, cur, p) by {
            assert(scan_paths(s2, c2).contains(p));
            if exists|j: int| continues_from(s2, c2, p, j) {
                let j = choose|j: int| continues_from(s2, c2, p, j);
                assert(s.take(2) =~= sep());
                assert(cur + s.take(j + 2) =~= c2 + s2.take(j));
                if j < s2.len() {
                    assert(s[j + 2] == s2[j]);
                }
                assert(continues_from(s, cur, p, j + 2));
            } else {
                let i = choose|i: int| stands_inside(s2, p, i);
                assert(s.subrange(i + 2, i + 2 + p.len()) =~= s2.subrange(i, i + p.len()));
                assert(s[i + 1] == s2[i - 1]);
                if i + p.len() < s2.len() {
                    assert(s[i + 2 + p.len()] == s2[i + p.len()]);
                }
                assert(stands_inside(s, p, i + 2));
            }
        }
    } else {
        let s1 = s.drop_first();
        let e = Seq::<char>::empty();
        lemma_scan_paths_maximal(s1, e);
        assert forall|p: Seq<char>| #[trigger] scan_paths(s, cur).contains(p) implies scanned_from(s, cur, p) by {
            if emitted(cur).contains(p) {
                assert(p == cur);
                assert(cur + s.take(0) =~= cur);
                assert(continues_from(s, cur, p, 0));
            } else {
                assert(scan_paths(s, cur) == emitted(cur) + scan_paths(s1, seq![]));
                assert(scan_paths(s1, e).contains(p));
                if exists|j: int| continues_from(s1, e, p, j) {
                    let j = choose|j: int| continues_from(s1, e, p, j);
                    assert(e + s1.take(j) =~= s1.take(j));
                    assert(s.subrange(1, 1 + j) =~= p);
                    if j < s1.len() {
                        assert(s[j + 1] == s1[j]);
                    }
                    assert(stands_inside(s, p, 1));
                } else {
                    let i = choose|i: int| stands_inside(s1, p, i);
                    assert(s.subrange(i + 1, i + 1 + p.len()) =~= s1.subrange(i, i + p.len()));
                    assert(s[i] == s1[i - 1]);
                    if i + p.len() < s1.len() {
                        assert(s[i + 1 + p.len()] == s1[i + p.len()]);
                    }
                    assert(stands_inside(s, p, i + 1));
                }
            }
        }
    }
}

proof fn lemma_qualified_paths_maximal(t: Seq<char>)
    ensures
        forall|p: Seq<char>| #[trigger] qualified_paths(t).contains(p) ==> exists|i: int| maximal_at(t, p, i),
{
    let e = Seq::<char>::empty();
    lemma_scan_paths_maximal(t, e);
    assert forall|p: Seq<char>| #[trigger] qualified_paths(t).contains(p) implies exists|i: int| maximal_at(t, p, i) by {
        assert(scan_paths(t, e).contains(p));
        if exists|j: int| continues_from(t, e, p, j) {
            let j = choose|j: int| continues_from(t, e, p, j);
            assert(e + t.take(j) =~= t.take(j));
            assert(t.subrange(0, j) =~= p);
            assert(maximal_at(t, p, 0));
        } else {
            let i = choose|i: int| stands_inside(t, p, i);
            assert(maximal_at(t, p, i));
        }
    }
}

proof fn lemma_item_paths_from(ts: Seq<Seq<char>>)
    ensures
        forall|p: Seq<char>|
            #[trigger] item_paths(ts).contains(p) ==> exists|k: int| 0 <= k < ts.len() && qualified_paths(ts[k]).contains(p),
    decreases ts.len(),
{
    if ts.len() > 0 {
        lemma_item_paths_from(ts.drop_last());
        assert forall|p: Seq<char>| #[trigger] item_paths(ts).contains(p) implies exists|k: int|
            0 <= k < ts.len() && qualified_paths(ts[k]).contains(p) by {
            if item_paths(ts.drop_last()).contains(p) {
                let k = choose|k: int| 0 <= k < ts.drop_last().len() && qualified_paths(ts.drop_last()[k]).contains(p);
                assert(ts[k] == ts.drop_last()[k]);
            } else {
                assert(qualified_paths(ts.last()).contains(p));
                assert(ts[ts.len() - 1] == ts.last());
            }
        }
    }
}

proof fn lemma_record_all_from(acc: Seq<Seq<char>>, ps: Seq<Seq<char>>)
    ensures
        forall|p: Seq<char>| #[trigger] record_all(acc, ps).contains(p) ==> acc.contains(p) || ps.contains(p),
    decreases ps.len(),
{
    if ps.len() > 0 {
        lemma_record_all_from(acc, ps.drop_last());
        assert forall|p: Seq<char>| #[trigger] record_all(acc, ps).contains(p) implies acc.contains(p) || ps.contains(p) by {
            let r = record_all(acc, ps.drop_last());
            if r.contains(p) {
                if ps.drop_last().contains(p) {
                    let q = choose|q: int| 0 <= q < ps.drop_last().len() && ps.drop_last()[q] == p;
                    assert(ps[q] == p);
                }
            } else {
                assert(p == ps.last());
                assert(ps[ps.len() - 1] == p);
            }
        }
    }
}

/// Analyzing texts records only whole paths of them: each path recorded,
/// unless it was recorded before, occurs in one of the texts with no
/// alphanumeric character or `_` right before or right after it, so a path
/// such as `std::net::Ipv4Addr` is recorded whole, never cut inside a segment.
pub proof fn lemma_recorded_paths_maximal(acc: Seq<Seq<char>>, ts: Seq<Seq<char>>)
    ensures
        forall|p: Seq<char>|
            #[trigger] record_all(acc, item_paths(ts)).contains(p) ==> acc.contains(p) || exists|k: int, i: int|
                0 <= k < ts.len() && maximal_at(ts[k], p, i),
{
    lemma_record_all_from(acc, item_paths(ts));
    lemma_item_paths_from(ts);
    assert forall|p: Seq<char>| #[trigger] record_all(acc, item_paths(ts)).contains(p) implies acc.contains(p)
        || exists|k: int, i: int| 0 <= k < ts.len() && maximal_at(ts[k], p, i) by {
        if !acc.contains(p) {
            assert(item_paths(ts).contains(p));
            let k = choose|k: int| 0 <= k < ts.len() && qualified_paths(ts[k]).contains(p);
            lemma_qualified_paths_maximal(ts[k]);
            let i = choose|i: int| maximal_at(ts[k], p, i);
        }
    }
}

} // verus!
