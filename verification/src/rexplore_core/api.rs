//! The public API of a crate, the options of building it, the errors of
//! exploring, and reading a package's name from its manifest.
use vstd::prelude::*;

use crate::public_item::PublicItem;
use crate::text::{
    chars_of, count_char, find, starts_with, starts_with_exec, string_of, subrange, trim,
    trim_exec, trim_matches_char, trim_matches_char_exec,
};

verus! {

/// The error of `serde_json` for a document that does not parse.
#[verifier::external_type_specification]
#[verifier::external_body]
pub struct ExJsonError(serde_json::Error);

/// An I/O error of std.
#[verifier::external_type_specification]
#[verifier::external_body]
pub struct ExIoError(std::io::Error);

/// A file system path of std.
#[verifier::external_type_specification]
#[verifier::external_body]
pub struct ExPathBuf(std::path::PathBuf);

/// The public API of a crate
#[derive(Debug)]
pub struct Api {
    /// The items that constitute the public API
    pub items: Vec<PublicItem>,
    /// Missing item IDs
    pub missing_item_ids: Vec<u32>,
}

/// How the public API is built.
#[derive(Copy, Clone, Debug)]
pub struct BuilderOptions {
    pub sorted: bool,
    pub debug_sorting: bool,
    pub omit_blanket_impls: bool,
    pub omit_auto_trait_impls: bool,
    pub omit_auto_derived_impls: bool,
}

impl Default for BuilderOptions {
    /// Sorted, and nothing omitted.
    fn default() -> (o: Self)
        ensures
            o.sorted,
            !o.debug_sorting,
            !o.omit_blanket_impls,
            !o.omit_auto_trait_impls,
            !o.omit_auto_derived_impls,
    {
        Self {
            sorted: true,
            debug_sorting: false,
            omit_blanket_impls: false,
            omit_auto_trait_impls: false,
            omit_auto_derived_impls: false,
        }
    }
}

/// What can go wrong while exploring a crate.
#[derive(Debug)]
#[non_exhaustive]
pub enum RexploreError {
    /// The rustdoc JSON does not parse.
    JsonParse(serde_json::Error),
    /// A file could not be read.
    Io(std::io::Error),
    /// A command could not be run.
    CommandExecution(String),
    /// `cargo rustdoc` failed.
    RustdocFailed,
    /// The rustdoc JSON is not where it was expected.
    RustdocOutputNotFound(std::path::PathBuf),
    /// The manifest names no package.
    PackageNameNotFound,
}

/// The result of an exploration step.
pub type Result<T> = std::result::Result<T, RexploreError>;

// ---------------------------------------------------------------------------
// Rustdoc JSON
// ---------------------------------------------------------------------------
/// Whether `serde_json` parses the text as rustdoc's crate data.
pub uninterp spec fn rustdoc_json_parses(json: Seq<char>) -> bool;

/// Parses rustdoc JSON text with `serde_json::from_str`; whether it
/// succeeds is a function of the text alone, named `rustdoc_json_parses`.
/// What the parsed crate holds is not stated.
#[verifier::external_body]
fn parse_crate_json(json: &str) -> (r: std::result::Result<rustdoc_types::Crate, serde_json::Error>)
    ensures
        r is Ok <==> rustdoc_json_parses(json@),
{
    serde_json::from_str(json)
}

/// Reads a crate's data from its rustdoc JSON text; fails with `JsonParse`
/// when the text does not parse.
pub fn load_rustdoc_json_from_str(json: &str) -> (r: Result<rustdoc_types::Crate>)
    ensures
        r is Ok <==> rustdoc_json_parses(json@),
        r matches Err(e) ==> e is JsonParse,
{
    match parse_crate_json(json) {
        Ok(c) => Ok(c),
        Err(e) => Err(RexploreError::JsonParse(e)),
    }
}

// ---------------------------------------------------------------------------
// The package name in a manifest
// ---------------------------------------------------------------------------
/// The lines of `s` (split at `\n`), given that `cur` precedes it on the
/// current line.
pub open spec fn lines_from(s: Seq<char>, cur: Seq<char>) -> Seq<Seq<char>>
    decreases s.len(),
{
    if s.len() == 0 {
        seq![cur]
    } else if s[0] == '\n' {
        seq![cur] + lines_from(s.drop_first(), seq![])
    } else {
        lines_from(s.drop_first(), cur.push(s[0]))
    }
}

/// The lines of `s`, split at `\n`.
pub open spec fn lines_of(s: Seq<char>) -> Seq<Seq<char>> {
    lines_from(s, seq![])
}

/// `name`
pub open spec fn name_key() -> Seq<char> {
    seq!['n', 'a', 'm', 'e']
}

/// A trimmed line that gives the package name: it starts with `name` and
/// holds exactly one `=`.
pub open spec fn is_name_line(t: Seq<char>) -> bool {
    starts_with(t, name_key()) && count_char(t, '=') == 1
}

/// The value of a name line: after the `=`, trimmed, without surrounding
/// double quotes, then without surrounding single quotes.
pub open spec fn name_value(t: Seq<char>) -> Seq<char> {
    trim_matches_char(
        trim_matches_char(trim(t.skip(find(t, seq!['=']).unwrap() + 1)), '"'),
        '\'',
    )
}

/// The value of the first line that, trimmed, is a name line.
pub open spec fn package_name_in(lines: Seq<Seq<char>>) -> Option<Seq<char>>
    decreases lines.len(),
{
    if lines.len() == 0 {
        None
    } else if is_name_line(trim(lines[0])) {
        Some(name_value(trim(lines[0])))
    } else {
        package_name_in(lines.drop_first())
    }
}

proof fn lemma_name_in_append(a: Seq<Seq<char>>, b: Seq<Seq<char>>)
    requires
        package_name_in(a) is None,
    ensures
        package_name_in(a + b) == package_name_in(b),
    decreases a.len(),
{
    if a.len() == 0 {
        assert(a + b =~= b);
    } else {
        assert((a + b).drop_first() =~= a.drop_first() + b);
        lemma_name_in_append(a.drop_first(), b);
    }
}

/// The value of a name line, or `None` when the line is none.
fn line_name(line: &[char]) -> (r: Option<Vec<char>>)
    ensures
        is_name_line(trim(line@)) ==> (r matches Some(v) && v@ == name_value(trim(line@))),
        !is_name_line(trim(line@)) ==> r is None,
{
    let t = trim_exec(line);
    let key = vec!['n', 'a', 'm', 'e'];
    if !starts_with_exec(&t, &key) {
        return None;
    }
    let mut count: usize = 0;
    let mut eq_pos: usize = 0;
    let mut i: usize = 0;
    while i < t.len()
        invariant
            i <= t@.len(),
            count <= i,
            count == count_char(t@.take(i as int), '='),
            count >= 1 ==> eq_pos < i && find(t@, seq!['=']) == Some(eq_pos as int),
            count == 0 ==> forall|m: int| 0 <= m < i ==> t@[m] != '=',
        decreases t@.len() - i,
    {
        assert(t@.take(i + 1).drop_last() =~= t@.take(i as int));
        if t[i] == '=' {
            if count == 0 {
                eq_pos = i;
                proof {
                    crate::text::lemma_first_char(t@, '=', i as int);
                }
            }
            count = count + 1;
        }
        i = i + 1;
    }
    assert(t@.take(t@.len() as int) =~= t@);
    if count != 1 {
        return None;
    }
    let rest = subrange(&t, eq_pos + 1, t.len());
    assert(rest@ =~= t@.skip(eq_pos + 1));
    let v = trim_exec(&rest);
    let v = trim_matches_char_exec(&v, '"');
    let v = trim_matches_char_exec(&v, '\'');
    Some(v)
}

/// The package name that a manifest's text gives: the value of the first
/// line that, trimmed, starts with `name` and holds exactly one `=`; the
/// value is what follows the `=`, trimmed and unquoted.
pub fn package_name_from_manifest(manifest_content: &str) -> (r: Result<String>)
    ensures
        package_name_in(lines_of(manifest_content@)) matches Some(v) ==> (r matches Ok(s) && s@ == v),
        package_name_in(lines_of(manifest_content@)) is None ==> (r matches Err(e) && e is PackageNameNotFound),
{
    let text = chars_of(manifest_content);
    let mut cur: Vec<char> = Vec::new();
    let mut i: usize = 0;
    assert(text@.skip(0) =~= text@);
    while i < text.len()
        invariant
            i <= text@.len(),
            text@ == manifest_content@,
            package_name_in(lines_of(text@)) == package_name_in(lines_from(text@.skip(i as int), cur@)),
        decreases text@.len() - i,
    {
        let ghost rest = text@.skip(i as int);
        assert(rest[0] == text@[i as int]);
        assert(rest.drop_first() =~= text@.skip(i + 1));
        if text[i] == '\n' {
            match line_name(&cur) {
                Some(v) => {
                    assert(package_name_in(lines_from(rest, cur@)) == Some(v@));
                    return Ok(string_of(&v));
                },
                None => {
                    proof {
                        assert(seq![cur@][0] == cur@);
                        assert(seq![cur@].drop_first() =~= Seq::<Seq<char>>::empty());
                        assert(!is_name_line(trim(cur@)));
                        assert(package_name_in(Seq::<Seq<char>>::empty()) is None);
                        assert(package_name_in(seq![cur@]) is None);
                        lemma_name_in_append(seq![cur@], lines_from(rest.drop_first(), seq![]));
                    }
                    cur = Vec::new();
                    assert(cur@ =~= Seq::<char>::empty());
                },
            }
        } else {
            cur.push(text[i]);
        }
        i = i + 1;
    }
    assert(text@.skip(i as int).len() == 0);
    match line_name(&cur) {
        Some(v) => Ok(string_of(&v)),
        None => {
            assert(package_name_in(seq![cur@].drop_first()) is None);
            Err(RexploreError::PackageNameNotFound)
        },
    }
}

/// The file stem of a package's rustdoc JSON: its name with every `-` as `_`.
pub open spec fn doc_stem(name: Seq<char>) -> Seq<char> {
    name.map_values(|c: char| if c == '-' { '_' } else { c })
}

/// The file stem of a package's rustdoc JSON: its name with every `-`
/// replaced by `_`.
pub fn rustdoc_json_stem(package_name: &str) -> (r: String)
    ensures
        r@ == doc_stem(package_name@),
{
    let v = chars_of(package_name);
    let mut out: Vec<char> = Vec::new();
    let mut i: usize = 0;
    while i < v.len()
        invariant
            i <= v@.len(),
            out@ == doc_stem(v@.take(i as int)),
        decreases v@.len() - i,
    {
        out.push(if v[i] == '-' { '_' } else { v[i] });
        i = i + 1;
        assert(out@ =~= doc_stem(v@.take(i as int)));
    }
    assert(v@.take(v@.len() as int) =~= v@);
    string_of(&out)
}

} // verus!
